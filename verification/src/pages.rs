//! What the pages of one session and of one repository show, before it is written as
//! markup.

use crate::dashboard::{has_short_form, short, short_sha, ShaChip};
use crate::db::{Commit, FileHotspot, Session};
use crate::templates::{compact, compact_count, plural, plural_ending};
use crate::text::{decimal_int, opt_str, opt_text, push_int};
use crate::transcript::TurnRole;
use vstd::prelude::*;
use vstd::string::StringExecFns;

verus! {

/// How a page is answered.
#[derive(Debug, Clone, Copy, PartialEq, Eq, Structural)]
pub enum PageStatus {
    Found,
    NotFound,
    Failed,
}

impl PageStatus {
    /// How a page about one thing is answered, from what the cache said of it.
    pub fn of_lookup<T>(result: &Result<Option<T>, String>) -> (out: PageStatus)
        ensures
            out == (match *result {
                Ok(Some(_)) => PageStatus::Found,
                Ok(None) => PageStatus::NotFound,
                Err(_) => PageStatus::Failed,
            }),
    {
        match result {
            Ok(Some(_)) => PageStatus::Found,
            Ok(None) => PageStatus::NotFound,
            Err(_) => PageStatus::Failed,
        }
    }

    /// The status code.
    pub fn code(self) -> (out: u16)
        ensures
            out == (match self {
                PageStatus::Found => 200u16,
                PageStatus::NotFound => 404u16,
                PageStatus::Failed => 500u16,
            }),
    {
        match self {
            PageStatus::Found => 200,
            PageStatus::NotFound => 404,
            PageStatus::Failed => 500,
        }
    }
}

/// The heading of a session: its summary, or that it has none.
pub fn summary_or_none(summary: &Option<String>) -> (out: String)
    ensures
        out@ == (match opt_text(*summary) {
            Some(s) => s,
            None => "(no summary)"@,
        }),
{
    match summary {
        Some(s) => s.clone(),
        None => "(no summary)".to_owned(),
    }
}

/// The word for who spoke.
pub fn role_label(role: TurnRole) -> (out: &'static str)
    ensures
        out@ == (match role {
            TurnRole::User => "user"@,
            TurnRole::Assistant => "assistant"@,
            TurnRole::System => "system"@,
        }),
{
    match role {
        TurnRole::User => "user",
        TurnRole::Assistant => "assistant",
        TurnRole::System => "system",
    }
}

/// The tokens of a session, in compact form, by kind.
pub fn token_line(s: &Session) -> (out: String)
    ensures
        out@ == compact(s.input_tokens as int) + " in · "@ + compact(s.output_tokens as int)
            + " out · "@ + compact(s.cache_read_tokens as int) + " cache-read · "@ + compact(
            s.cache_creation_tokens as int,
        ) + " cache-create"@,
{
    let mut out = compact_count(s.input_tokens);
    out.append(" in · ");
    out.append(compact_count(s.output_tokens).as_str());
    out.append(" out · ");
    out.append(compact_count(s.cache_read_tokens).as_str());
    out.append(" cache-read · ");
    out.append(compact_count(s.cache_creation_tokens).as_str());
    out.append(" cache-create");
    out
}

/// A count with its noun.
pub open spec fn counted_noun(n: int, noun: Seq<char>) -> Seq<char> {
    decimal_int(n) + noun + plural(n)
}

/// A count with its noun.
fn count_noun(n: i64, noun: &str) -> (out: String)
    ensures
        out@ == counted_noun(n as int, noun@),
{
    let mut out = String::new();
    push_int(&mut out, n);
    out.append(noun);
    out.append(plural_ending(n as i128));
    assert(out@ =~= counted_noun(n as int, noun@));
    out
}

/// A much-edited file, as it is listed.
pub struct HotspotRow {
    pub path: String,
    pub churn: String,
    pub commits: String,
    pub authors: String,
}

/// Lists a much-edited file: how many lines moved in it, in how many commits, by how many
/// authors.
pub fn hotspot_row(h: &FileHotspot) -> (out: HotspotRow)
    ensures
        out.path@ == h.file_path@,
        out.churn@ == decimal_int(h.churn as int) + " LOC churn"@,
        out.commits@ == counted_noun(h.commits as int, " commit"@),
        out.authors@ == counted_noun(h.authors as int, " author"@),
{
    let mut churn = String::new();
    push_int(&mut churn, h.churn);
    churn.append(" LOC churn");
    assert(churn@ =~= decimal_int(h.churn as int) + " LOC churn"@);
    HotspotRow {
        path: h.file_path.clone(),
        churn,
        commits: count_noun(h.commits, " commit"),
        authors: count_noun(h.authors, " author"),
    }
}

/// The chips of a repository's commits, all of which link to its remote where that is
/// known; `None` where the hash of a commit has no short form.
pub fn commit_chips(commits: &Vec<Commit>, remote_url: Option<&str>) -> (out: Option<Vec<ShaChip>>)
    ensures
        match out {
            Some(chips) => {
                &&& chips@.len() == commits@.len()
                &&& forall|i: int|
                    0 <= i < chips@.len() ==> {
                        let chip = #[trigger] chips@[i];
                        &&& short(commits@[i].sha@) == Some(chip.short@)
                        &&& opt_text(chip.href) == (match opt_str(remote_url) {
                            Some(url) => if url.len() > 0 {
                                Some(url + "/commit/"@ + commits@[i].sha@)
                            } else {
                                None
                            },
                            None => None,
                        })
                    }
            },
            None => exists|i: int|
                0 <= i < commits@.len() && short((#[trigger] commits@[i]).sha@) is None,
        },
{
    let mut chips: Vec<ShaChip> = Vec::new();
    let mut i: usize = 0;
    while i < commits.len()
        invariant
            i <= commits@.len(),
            chips@.len() == i,
            forall|k: int|
                0 <= k < chips@.len() ==> {
                    let chip = #[trigger] chips@[k];
                    &&& short(commits@[k].sha@) == Some(chip.short@)
                    &&& opt_text(chip.href) == (match opt_str(remote_url) {
                        Some(url) => if url.len() > 0 {
                            Some(url + "/commit/"@ + commits@[k].sha@)
                        } else {
                            None
                        },
                        None => None,
                    })
                },
        decreases commits@.len() - i,
    {
        let sha = commits[i].sha.as_str();
        if !has_short_form(sha) {
            assert(short(commits@[i as int].sha@) is None);
            return None;
        }
        chips.push(short_sha(sha, remote_url));
        i = i + 1;
    }
    Some(chips)
}

// ---------------------------------------------------------------------------
// Laws
// ---------------------------------------------------------------------------

/// One of a thing is told in the singular, and any other number in the plural.
pub proof fn law_nouns_go_with_their_counts(n: int, noun: Seq<char>)
    ensures
        counted_noun(1, noun) == decimal_int(1) + noun,
        n != 1 ==> counted_noun(n, noun) == decimal_int(n) + noun + seq!['s'],
{
    reveal_strlit("");
    reveal_strlit("s");
    assert(""@ =~= Seq::empty());
    assert("s"@ =~= seq!['s']);
    assert(decimal_int(1) + noun + Seq::<char>::empty() =~= decimal_int(1) + noun);
}

} // verus!
