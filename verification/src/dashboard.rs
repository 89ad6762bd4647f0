//! What the dashboard shows, before it is written as markup.

use crate::activity::{dormant, is_dormant, law_dormant_without_signals, needs_action};
use crate::db::{CiFailure, CommitWithRepo, Repo, SessionWithRepos, UncommittedGroup};
use crate::order::{lemma_text_order, lemma_text_order_chains, stands_before, text_before};
use crate::seqs::{
    count_of, gather, group_list_steps, law_counting_is_filtering, law_gathering_is_filtering,
    law_what_is_gathered, sum_of,
};
use crate::templates::{compact, compact_count, display_name, label, plural, plural_ending};
use crate::text::{
    after_prefix, byte_len, chars_in, chars_of, copy_opt, count_chars_in, decimal, decimal_int,
    has_bytes, has_prefix, in_i64, law_ascii_is_a_byte_each, law_bytes_are_those_of_the_parts,
    law_ends_of_texts, opt_is, opt_str, opt_text, push_decimal, push_int, str_eq, string_of,
    strip_prefix, texts,
};
use vstd::prelude::*;
use vstd::slice::slice_subrange;
use vstd::string::StringExecFns;

verus! {

broadcast use group_list_steps;

// ---------------------------------------------------------------------------
// The author filter
// ---------------------------------------------------------------------------

/// What a request for the dashboard may ask for.
#[derive(Debug, Default)]
pub struct DashboardParams {
    /// `me` for the commits of the detected git user, `all` for those of everyone, as
    /// by default, and any other text for those of that email.
    pub author: Option<String>,
}

/// The email that the commits are filtered by.
pub open spec fn filter_of(author: Option<Seq<char>>, my_email: Option<Seq<char>>) -> Option<
    Seq<char>,
> {
    match author {
        None => None,
        Some(a) => if a == ""@ || a == "all"@ {
            None
        } else if a == "me"@ {
            my_email
        } else {
            Some(a)
        },
    }
}

impl DashboardParams {
    /// The email that the commits are filtered by, if they are.
    pub fn author_filter(&self, my_email: &Option<String>) -> (out: Option<String>)
        ensures
            opt_text(out) == filter_of(opt_text(self.author), opt_text(*my_email)),
    {
        match &self.author {
            None => None,
            Some(a) => if str_eq(a.as_str(), "") || str_eq(a.as_str(), "all") {
                None
            } else if str_eq(a.as_str(), "me") {
                copy_opt(my_email)
            } else {
                Some(a.clone())
            },
        }
    }
}

/// The two links of the author filter.
pub struct AuthorToggle {
    /// What "me" stands for.
    pub me: String,
    pub all_active: bool,
    pub me_active: bool,
    pub title: String,
}

/// The links of the author filter, under the filter that is in force; none where it is
/// not known who "me" is.
pub fn author_toggle(my_email: Option<&str>, active: Option<&str>) -> (out: Option<AuthorToggle>)
    ensures
        match (my_email, out) {
            (None, None) => true,
            (Some(me), Some(t)) => {
                &&& t.me@ == me@
                &&& t.all_active == (active is None)
                &&& t.me_active == (opt_str(active) == Some(me@))
                &&& t.title@ == "author filter — currently "@ + (match opt_str(active) {
                    Some(a) => a,
                    None => "all"@,
                })
            },
            _ => false,
        },
{
    match my_email {
        None => None,
        Some(me) => {
            let mut title = "author filter — currently ".to_owned();
            let me_active = match active {
                Some(a) => {
                    title.append(a);
                    str_eq(a, me)
                },
                None => {
                    title.append("all");
                    false
                },
            };
            Some(AuthorToggle { me: me.to_owned(), all_active: active.is_none(), me_active, title })
        },
    }
}

// ---------------------------------------------------------------------------
// What needs action
// ---------------------------------------------------------------------------

/// Whether the latest default-branch run of a repository failed.
pub open spec fn failing(r: Repo) -> bool {
    opt_text(r.ci_status) == Some("failure"@)
}

/// How many files of a repository are not committed.
pub open spec fn uncommitted(r: Repo) -> int {
    r.untracked_files + r.modified_files
}

/// Whether a repository's head is on no branch.
pub open spec fn detached(r: Repo) -> bool {
    opt_text(r.head_ref) == Some("detached"@)
}

/// What needs action over all repositories.
#[derive(Debug, Clone, Copy, PartialEq, Eq, Structural)]
pub struct ActionSummary {
    pub ci_failing: usize,
    pub dirty: usize,
    pub in_progress: usize,
    pub detached: usize,
    pub reviews: i128,
}

/// What the summary of a list of repositories says.
pub open spec fn summary_of(s: ActionSummary, repos: Seq<Repo>) -> bool {
    &&& s.ci_failing == count_of(repos, |r: Repo| failing(r))
    &&& s.dirty == count_of(repos, |r: Repo| uncommitted(r) > 0)
    &&& s.in_progress == count_of(repos, |r: Repo| r.in_progress_op is Some)
    &&& s.detached == count_of(repos, |r: Repo| detached(r))
    &&& s.reviews == sum_of(repos, |r: Repo| r.prs_awaiting_my_review as int)
}

/// How many files of a repository are not committed.
fn count_uncommitted(r: &Repo) -> (n: i128)
    ensures
        n == uncommitted(*r),
{
    r.untracked_files as i128 + r.modified_files as i128
}

/// Counts what needs action.
pub fn action_summary(repos: &Vec<Repo>) -> (out: ActionSummary)
    ensures
        summary_of(out, repos@),
{
    let ghost all = repos@;
    let mut s = ActionSummary { ci_failing: 0, dirty: 0, in_progress: 0, detached: 0, reviews: 0 };
    let mut i: usize = 0;
    assert(all.take(0) =~= Seq::empty());
    while i < repos.len()
        invariant
            i <= repos@.len(),
            all == repos@,
            summary_of(s, all.take(i as int)),
            s.ci_failing <= i,
            s.dirty <= i,
            s.in_progress <= i,
            s.detached <= i,
            -0x8000_0000_0000_0000 * i <= s.reviews <= 0x8000_0000_0000_0000 * i,
        decreases repos@.len() - i,
    {
        let r = &repos[i];
        assert(all.take(i + 1) =~= all.take(i as int).push(*r));
        if opt_is(&r.ci_status, "failure") {
            s.ci_failing = s.ci_failing + 1;
        }
        if count_uncommitted(r) > 0 {
            s.dirty = s.dirty + 1;
        }
        if r.in_progress_op.is_some() {
            s.in_progress = s.in_progress + 1;
        }
        if opt_is(&r.head_ref, "detached") {
            s.detached = s.detached + 1;
        }
        assert(i < 0xffff_ffff_ffff_ffff);
        s.reviews = s.reviews + r.prs_awaiting_my_review as i128;
        i = i + 1;
    }
    assert(all.take(i as int) =~= all);
    s
}

impl ActionSummary {
    /// Whether anything needs action.
    pub open spec fn any(self) -> bool {
        self.ci_failing > 0 || self.dirty > 0 || self.in_progress > 0 || self.detached > 0
            || self.reviews != 0
    }

    /// Whether anything needs action.
    pub fn has_action(&self) -> (out: bool)
        ensures
            out == self.any(),
    {
        self.ci_failing > 0 || self.dirty > 0 || self.in_progress > 0 || self.detached > 0
            || self.reviews != 0
    }

    /// The items of the banner.
    pub open spec fn items(self) -> Seq<Seq<char>> {
        let none = Seq::<Seq<char>>::empty();
        (if self.ci_failing > 0 {
            seq![decimal(self.ci_failing as nat) + " failing CI"@ + plural(self.ci_failing as int)]
        } else {
            none
        }) + (if self.dirty > 0 {
            seq![
                decimal(self.dirty as nat) + " dirty "@ + (if self.dirty == 1 {
                    "repo"@
                } else {
                    "repos"@
                }),
            ]
        } else {
            none
        }) + (if self.in_progress > 0 {
            seq![decimal(self.in_progress as nat) + " mid-op"@]
        } else {
            none
        }) + (if self.detached > 0 {
            seq![
                decimal(self.detached as nat) + " detached HEAD"@ + plural(self.detached as int),
            ]
        } else {
            none
        }) + (if self.reviews > 0 {
            seq![decimal_int(self.reviews as int) + " awaiting your review"@]
        } else {
            none
        })
    }

    /// The items of the banner: what there is of each kind, in a fixed order.
    pub fn banner(&self) -> (out: Vec<String>)
        requires
            self.reviews <= u64::MAX,
        ensures
            texts(out@) == self.items(),
    {
        let mut out: Vec<String> = Vec::new();
        assert(texts(out@) =~= Seq::empty());
        if self.ci_failing > 0 {
            let mut item = String::new();
            push_decimal(&mut item, self.ci_failing as u64);
            item.append(" failing CI");
            item.append(plural_ending(self.ci_failing as i128));
            assert(item@ =~= decimal(self.ci_failing as nat) + " failing CI"@ + plural(
                self.ci_failing as int,
            ));
            out.push(item);
        }
        if self.dirty > 0 {
            let mut item = String::new();
            push_decimal(&mut item, self.dirty as u64);
            item.append(" dirty ");
            if self.dirty == 1 {
                item.append("repo");
            } else {
                item.append("repos");
            }
            assert(item@ =~= decimal(self.dirty as nat) + " dirty "@ + (if self.dirty == 1 {
                "repo"@
            } else {
                "repos"@
            }));
            out.push(item);
        }
        if self.in_progress > 0 {
            let mut item = String::new();
            push_decimal(&mut item, self.in_progress as u64);
            item.append(" mid-op");
            assert(item@ =~= decimal(self.in_progress as nat) + " mid-op"@);
            out.push(item);
        }
        if self.detached > 0 {
            let mut item = String::new();
            push_decimal(&mut item, self.detached as u64);
            item.append(" detached HEAD");
            item.append(plural_ending(self.detached as i128));
            assert(item@ =~= decimal(self.detached as nat) + " detached HEAD"@ + plural(
                self.detached as int,
            ));
            out.push(item);
        }
        if self.reviews > 0 {
            let mut item = String::new();
            push_decimal(&mut item, self.reviews as u64);
            item.append(" awaiting your review");
            assert(item@ =~= decimal_int(self.reviews as int) + " awaiting your review"@);
            out.push(item);
        }
        assert(texts(out@) =~= self.items());
        out
    }
}

/// Whether a repository has something for the user: it needs action, or pull requests
/// of it await the user's review.
pub open spec fn has_news(r: Repo) -> bool {
    needs_action(r) || r.prs_awaiting_my_review > 0
}

/// The banner is there exactly where some repository needs action, or some pull
/// request awaits the user's review.
pub proof fn law_banner_tells_of_action(s: ActionSummary, repos: Seq<Repo>)
    requires
        summary_of(s, repos),
        forall|i: int| 0 <= i < repos.len() ==> (#[trigger] repos[i]).prs_awaiting_my_review >= 0,
    ensures
        s.any() <==> exists|i: int| 0 <= i < repos.len() && has_news(#[trigger] repos[i]),
{
    lemma_any(repos);
}

/// Whether anything in a list is for the user, by the counts over it.
spec fn any_of(repos: Seq<Repo>) -> bool {
    ||| count_of(repos, |r: Repo| failing(r)) > 0
    ||| count_of(repos, |r: Repo| uncommitted(r) > 0) > 0
    ||| count_of(repos, |r: Repo| r.in_progress_op is Some) > 0
    ||| count_of(repos, |r: Repo| detached(r)) > 0
    ||| sum_of(repos, |r: Repo| r.prs_awaiting_my_review as int) != 0
}

proof fn lemma_any(repos: Seq<Repo>)
    requires
        forall|i: int| 0 <= i < repos.len() ==> (#[trigger] repos[i]).prs_awaiting_my_review >= 0,
    ensures
        sum_of(repos, |r: Repo| r.prs_awaiting_my_review as int) >= 0,
        any_of(repos) <==> exists|i: int| 0 <= i < repos.len() && has_news(#[trigger] repos[i]),
    decreases repos.len(),
{
    if repos.len() > 0 {
        let rest = repos.drop_last();
        let r = repos.last();
        assert forall|i: int| 0 <= i < rest.len() implies (#[trigger] rest[i]).prs_awaiting_my_review
            >= 0 by {
            assert(rest[i] == repos[i]);
        }
        assert(repos[repos.len() - 1] == r);
        assert(r.prs_awaiting_my_review >= 0);
        lemma_any(rest);
        assert(any_of(repos) <==> any_of(rest) || has_news(r));
        if any_of(rest) {
            let i = choose|i: int| 0 <= i < rest.len() && has_news(#[trigger] rest[i]);
            assert(has_news(repos[i]));
        }
        if exists|i: int| 0 <= i < repos.len() && has_news(#[trigger] repos[i]) {
            let i = choose|i: int| 0 <= i < repos.len() && has_news(#[trigger] repos[i]);
            if i < rest.len() {
                assert(has_news(rest[i]));
            }
        }
    }
}

// ---------------------------------------------------------------------------
// The standup
// ---------------------------------------------------------------------------

/// The recent commits of a repository: how many, the first subjects, and how many are
/// left out.
pub struct CommitGroup {
    pub repo_id: i64,
    pub repo_name: String,
    pub count: usize,
    pub subjects: Vec<String>,
    pub more: usize,
}

/// What a [`CommitGroup`] says.
#[verifier::ext_equal]
pub struct CommitGroupView {
    pub repo_id: i64,
    pub repo_name: Seq<char>,
    pub count: nat,
    pub subjects: Seq<Seq<char>>,
    pub more: nat,
}

impl View for CommitGroup {
    type V = CommitGroupView;

    open spec fn view(&self) -> CommitGroupView {
        CommitGroupView {
            repo_id: self.repo_id,
            repo_name: self.repo_name@,
            count: self.count as nat,
            subjects: texts(self.subjects@),
            more: self.more as nat,
        }
    }
}

/// A digest of the last day.
pub struct Standup {
    /// The commits, by repository, in the order of the names.
    pub commits: Vec<CommitGroup>,
    pub session_count: usize,
    /// The summaries of the first sessions.
    pub sessions: Vec<Option<String>>,
    pub more_sessions: usize,
    /// The repositories whose default branch fails.
    pub failing: Vec<String>,
    /// The repositories with uncommitted files, and how many.
    pub dirty: Vec<(String, i128)>,
}

/// The first items of a list, up to `cap` of them.
pub open spec fn first<T>(s: Seq<T>, cap: nat) -> Seq<T> {
    if s.len() <= cap {
        s
    } else {
        s.take(cap as int)
    }
}

/// How many items of a list come after the first `cap`.
pub open spec fn beyond<T>(s: Seq<T>, cap: nat) -> nat {
    if s.len() <= cap {
        0
    } else {
        (s.len() - cap) as nat
    }
}

/// The subjects of the commits to a repository since a time.
pub open spec fn subjects_of(commits: Seq<CommitWithRepo>, id: i64, cutoff: int) -> Seq<Seq<char>> {
    gather(
        commits,
        |c: CommitWithRepo|
            if c.commit.timestamp >= cutoff && c.repo_id == id {
                Some(c.commit.subject@)
            } else {
                None
            },
    )
}

/// The names under which the commits since a time give a repository.
pub open spec fn names_of(commits: Seq<CommitWithRepo>, id: i64, cutoff: int) -> Seq<Seq<char>> {
    gather(
        commits,
        |c: CommitWithRepo|
            if c.commit.timestamp >= cutoff && c.repo_id == id {
                Some(c.repo_name@)
            } else {
                None
            },
    )
}

/// The group of a repository.
pub open spec fn group_of(commits: Seq<CommitWithRepo>, id: i64, cutoff: int) -> CommitGroupView {
    let all = subjects_of(commits, id, cutoff);
    CommitGroupView {
        repo_id: id,
        repo_name: names_of(commits, id, cutoff)[0],
        count: all.len(),
        subjects: first(all, 4),
        more: beyond(all, 4),
    }
}

/// Whether one repository comes before another: by their names, and by their ids where
/// the names are the same.
pub open spec fn comes_before(a: (i64, Seq<char>), b: (i64, Seq<char>)) -> bool {
    text_before(a.1, b.1) || a.1 == b.1 && a.0 < b.0
}

/// Whether a list of repositories is ascending, and holds exactly those with commits since
/// a time, each by the name that the first of these gives it.
pub open spec fn active_in(
    list: Seq<(i64, Seq<char>)>,
    commits: Seq<CommitWithRepo>,
    cutoff: int,
) -> bool {
    &&& forall|i: int, j: int|
        0 <= i < j < list.len() ==> comes_before(#[trigger] list[i], #[trigger] list[j])
    &&& forall|id: i64, name: Seq<char>| #[trigger]
        list.contains((id, name)) <==> names_of(commits, id, cutoff).len() > 0 && names_of(
            commits,
            id,
            cutoff,
        )[0] == name
}

/// The groups of a list of commits since a time: one for each repository that has any, in
/// the order of the names.
pub open spec fn groups_of(
    groups: Seq<CommitGroup>,
    commits: Seq<CommitWithRepo>,
    cutoff: int,
) -> bool {
    &&& active_in(
        groups.map_values(|g: CommitGroup| (g.repo_id, g.repo_name@)),
        commits,
        cutoff,
    )
    &&& forall|i: int|
        0 <= i < groups.len() ==> (#[trigger] groups[i])@ == group_of(
            commits,
            groups[i].repo_id,
            cutoff,
        )
}

/// No repository has two groups in a standup.
pub proof fn law_one_group_per_repo(
    groups: Seq<CommitGroup>,
    commits: Seq<CommitWithRepo>,
    cutoff: int,
)
    requires
        groups_of(groups, commits, cutoff),
    ensures
        forall|i: int, j: int|
            0 <= i < j < groups.len() ==> (#[trigger] groups[i]).repo_id != (
            #[trigger] groups[j]).repo_id,
{
    let list = groups.map_values(|g: CommitGroup| (g.repo_id, g.repo_name@));
    assert forall|i: int, j: int| 0 <= i < j < groups.len() implies (
    #[trigger] groups[i]).repo_id != (#[trigger] groups[j]).repo_id by {
        let (a, b) = (list[i], list[j]);
        assert(a == (groups[i].repo_id, groups[i].repo_name@));
        assert(b == (groups[j].repo_id, groups[j].repo_name@));
        assert(list.contains((a.0, a.1)));
        assert(list.contains((b.0, b.1)));
        lemma_text_order(a.1, b.1);
    }
}

/// The summaries of the sessions started since a time.
pub open spec fn summaries_of(sessions: Seq<SessionWithRepos>, cutoff: int) -> Seq<
    Option<Seq<char>>,
> {
    gather(
        sessions,
        |s: SessionWithRepos|
            match s.session.started_at {
                Some(t) => if t >= cutoff {
                    Some(opt_text(s.session.summary))
                } else {
                    None
                },
                None => None,
            },
    )
}

/// The names of the repositories whose default branch fails.
pub open spec fn failing_names(repos: Seq<Repo>) -> Seq<Seq<char>> {
    gather(
        repos,
        |r: Repo|
            if failing(r) {
                Some(r.name@)
            } else {
                None
            },
    )
}

/// The names of the repositories with uncommitted files, and how many.
pub open spec fn dirty_names(repos: Seq<Repo>) -> Seq<(Seq<char>, int)> {
    gather(
        repos,
        |r: Repo|
            if uncommitted(r) > 0 {
                Some((r.name@, uncommitted(r)))
            } else {
                None
            },
    )
}

/// The digest of a day that ends at `now`.
pub open spec fn standup_of(
    s: Standup,
    repos: Seq<Repo>,
    commits: Seq<CommitWithRepo>,
    sessions: Seq<SessionWithRepos>,
    now: int,
) -> bool {
    let cutoff = now - 86_400;
    let today = summaries_of(sessions, cutoff);
    &&& groups_of(s.commits@, commits, cutoff)
    &&& s.session_count == today.len()
    &&& s.sessions@.map_values(|t: Option<String>| opt_text(t)) == first(today, 6)
    &&& s.more_sessions == beyond(today, 6)
    &&& texts(s.failing@) == failing_names(repos)
    &&& s.dirty@.map_values(|d: (String, i128)| (d.0@, d.1 as int)) == dirty_names(repos)
}

impl Standup {
    /// Whether there is nothing to report.
    pub fn is_empty(&self) -> (out: bool)
        ensures
            out == (self.commits@.len() == 0 && self.session_count == 0 && self.failing@.len() == 0
                && self.dirty@.len() == 0),
    {
        self.commits.len() == 0 && self.session_count == 0 && self.failing.len() == 0
            && self.dirty.len() == 0
    }
}

/// The ids and names that a list holds.
spec fn key_views(keys: Seq<(i64, Vec<char>)>) -> Seq<(i64, Seq<char>)> {
    keys.map_values(|k: (i64, Vec<char>)| (k.0, k.1@))
}

/// Whether a list of repositories holds one with an id.
fn is_known(keys: &Vec<(i64, Vec<char>)>, id: i64) -> (known: bool)
    ensures
        known == exists|k: int| 0 <= k < keys@.len() && (#[trigger] keys@[k]).0 == id,
{
    let mut k: usize = 0;
    while k < keys.len()
        invariant
            k <= keys@.len(),
            forall|i: int| 0 <= i < k ==> (#[trigger] keys@[i]).0 != id,
        decreases keys@.len() - k,
    {
        if keys[k].0 == id {
            return true;
        }
        k = k + 1;
    }
    false
}

/// Where a repository goes among ascending ones that it is not among.
fn place_of(keys: &Vec<(i64, Vec<char>)>, id: i64, name: &Vec<char>) -> (k: usize)
    requires
        forall|i: int| 0 <= i < keys@.len() ==> (#[trigger] keys@[i]).0 != id,
        forall|i: int, j: int|
            0 <= i < j < keys@.len() ==> comes_before(
                #[trigger] key_views(keys@)[i],
                #[trigger] key_views(keys@)[j],
            ),
    ensures
        k <= keys@.len(),
        forall|i: int| 0 <= i < k ==> comes_before(#[trigger] key_views(keys@)[i], (id, name@)),
        forall|i: int|
            k <= i < keys@.len() ==> comes_before((id, name@), #[trigger] key_views(keys@)[i]),
{
    let ghost views = key_views(keys@);
    let mut k: usize = 0;
    while k < keys.len()
        invariant
            k <= keys@.len(),
            views == key_views(keys@),
            forall|i: int| 0 <= i < keys@.len() ==> (#[trigger] keys@[i]).0 != id,
            forall|i: int, j: int|
                0 <= i < j < keys@.len() ==> comes_before(#[trigger] views[i], #[trigger] views[j]),
            forall|i: int| 0 <= i < k ==> comes_before(#[trigger] views[i], (id, name@)),
        decreases keys@.len() - k,
    {
        let other = &keys[k];
        proof {
            lemma_text_order(other.1@, name@);
            assert(views[k as int] == (other.0, other.1@));
        }
        if !stands_before(other.1.as_slice(), name.as_slice()) && (stands_before(
            name.as_slice(),
            other.1.as_slice(),
        ) || id < other.0) {
            assert forall|i: int| k <= i < keys@.len() implies comes_before(
                (id, name@),
                #[trigger] views[i],
            ) by {
                if i > k {
                    lemma_comes_before_chains((id, name@), views[k as int], views[i]);
                }
            }
            return k;
        }
        k = k + 1;
    }
    k
}

/// What comes before a repository comes before all that the repository comes before.
proof fn lemma_comes_before_chains(a: (i64, Seq<char>), b: (i64, Seq<char>), c: (i64, Seq<char>))
    requires
        comes_before(a, b),
        comes_before(b, c),
    ensures
        comes_before(a, c),
{
    if text_before(a.1, b.1) && text_before(b.1, c.1) {
        lemma_text_order_chains(a.1, b.1, c.1);
    }
}

/// A repository that is put in its place among ascending ones.
proof fn lemma_key_insert(list: Seq<(i64, Seq<char>)>, k: int, key: (i64, Seq<char>))
    requires
        0 <= k <= list.len(),
        forall|i: int, j: int|
            0 <= i < j < list.len() ==> comes_before(#[trigger] list[i], #[trigger] list[j]),
        forall|i: int| 0 <= i < k ==> comes_before(#[trigger] list[i], key),
        forall|i: int| k <= i < list.len() ==> comes_before(key, #[trigger] list[i]),
    ensures
        forall|i: int, j: int|
            0 <= i < j < list.len() + 1 ==> comes_before(
                #[trigger] list.insert(k, key)[i],
                #[trigger] list.insert(k, key)[j],
            ),
        forall|x: (i64, Seq<char>)| #[trigger]
            list.insert(k, key).contains(x) <==> list.contains(x) || x == key,
{
    let all = list.insert(k, key);
    assert forall|i: int, j: int| 0 <= i < j < all.len() implies comes_before(
        #[trigger] all[i],
        #[trigger] all[j],
    ) by {
        let a = if i < k {
            i
        } else {
            i - 1
        };
        let b = if j < k {
            j
        } else {
            j - 1
        };
        if i != k {
            assert(all[i] == list[a]);
        }
        if j != k {
            assert(all[j] == list[b]);
        }
    }
    assert forall|x: (i64, Seq<char>)| #[trigger] all.contains(x) <==> list.contains(x) || x
        == key by {
        if all.contains(x) {
            let i = choose|i: int| 0 <= i < all.len() && all[i] == x;
            if i < k {
                assert(list[i] == x);
            } else if i > k {
                assert(list[i - 1] == x);
            }
        }
        if list.contains(x) {
            let i = choose|i: int| 0 <= i < list.len() && list[i] == x;
            if i < k {
                assert(all[i] == x);
            } else {
                assert(all[i + 1] == x);
            }
        }
        assert(all[k] == key);
    }
}

/// What one more commit does to the names of each repository.
proof fn lemma_names_push(commits: Seq<CommitWithRepo>, c: CommitWithRepo, cutoff: int)
    ensures
        forall|id: i64| #[trigger]
            names_of(commits.push(c), id, cutoff) == (if c.commit.timestamp >= cutoff && c.repo_id
                == id {
                names_of(commits, id, cutoff).push(c.repo_name@)
            } else {
                names_of(commits, id, cutoff)
            }),
{
}

/// The repositories with commits since a time, ascending.
fn active_repos(commits: &Vec<CommitWithRepo>, cutoff: i64) -> (out: Vec<(i64, Vec<char>)>)
    ensures
        active_in(key_views(out@), commits@, cutoff as int),
{
    let mut out: Vec<(i64, Vec<char>)> = Vec::new();
    let mut i: usize = 0;
    proof {
        assert(key_views(out@) =~= Seq::empty());
    }
    while i < commits.len()
        invariant
            i <= commits@.len(),
            active_in(key_views(out@), commits@.take(i as int), cutoff as int),
        decreases commits@.len() - i,
    {
        let c = &commits[i];
        let ghost part = commits@.take(i as int);
        let ghost list = key_views(out@);
        proof {
            assert(commits@.take(i + 1) =~= part.push(*c));
            lemma_names_push(part, *c, cutoff as int);
            assert forall|k: int| 0 <= k < out@.len() implies names_of(
                part,
                (#[trigger] out@[k]).0,
                cutoff as int,
            ).len() > 0 by {
                assert(list[k] == (out@[k].0, out@[k].1@));
                assert(list.contains((out@[k].0, out@[k].1@)));
            }
        }
        if c.commit.timestamp >= cutoff {
            let ghost named = names_of(part, c.repo_id, cutoff as int);
            if !is_known(&out, c.repo_id) {
                let name = chars_of(c.repo_name.as_str());
                proof {
                    if named.len() > 0 {
                        assert(list.contains((c.repo_id, named[0])));
                        let k = choose|k: int|
                            0 <= k < list.len() && list[k] == (c.repo_id, named[0]);
                        assert(out@[k].0 == c.repo_id);
                    }
                    assert(named.len() == 0);
                    assert(named.push(c.repo_name@)[0] == c.repo_name@);
                }
                let k = place_of(&out, c.repo_id, &name);
                let ghost key = (c.repo_id, name@);
                proof {
                    lemma_key_insert(list, k as int, key);
                }
                out.insert(k, (c.repo_id, name));
                assert(key_views(out@) =~= list.insert(k as int, key));
            } else {
                assert(named.push(c.repo_name@)[0] == named[0]);
            }
        }
        i = i + 1;
    }
    assert(commits@.take(i as int) =~= commits@);
    out
}

/// The group of a repository.
fn commit_group(
    commits: &Vec<CommitWithRepo>,
    repo_id: i64,
    name: &Vec<char>,
    cutoff: i64,
) -> (out: CommitGroup)
    requires
        name@ == names_of(commits@, repo_id, cutoff as int)[0],
    ensures
        out@ == group_of(commits@, repo_id, cutoff as int),
{
    let repo_name = string_of(name.as_slice());
    let ghost f = |c: CommitWithRepo|
        if c.commit.timestamp >= cutoff && c.repo_id == repo_id {
            Some(c.commit.subject@)
        } else {
            None
        };
    let mut count: usize = 0;
    let mut subjects: Vec<String> = Vec::new();
    let mut i: usize = 0;
    assert(texts(subjects@) =~= first(gather(commits@.take(0), f), 4));
    while i < commits.len()
        invariant
            i <= commits@.len(),
            f == (|c: CommitWithRepo|
                if c.commit.timestamp >= cutoff && c.repo_id == repo_id {
                    Some(c.commit.subject@)
                } else {
                    None
                }),
            count == gather(commits@.take(i as int), f).len(),
            count <= i,
            texts(subjects@) == first(gather(commits@.take(i as int), f), 4),
        decreases commits@.len() - i,
    {
        let c = &commits[i];
        let ghost seen = gather(commits@.take(i as int), f);
        assert(commits@.take(i + 1) =~= commits@.take(i as int).push(*c));
        if c.commit.timestamp >= cutoff && c.repo_id == repo_id {
            let ghost before = subjects@;
            if subjects.len() < 4 {
                subjects.push(c.commit.subject.clone());
                assert(texts(subjects@) =~= texts(before).push(c.commit.subject@));
            }
            assert(texts(before).len() == before.len());
            assert(first(seen.push(c.commit.subject@), 4) =~= if seen.len() < 4 {
                first(seen, 4).push(c.commit.subject@)
            } else {
                first(seen, 4)
            });
            count = count + 1;
        }
        i = i + 1;
    }
    proof {
        assert(commits@.take(i as int) =~= commits@);
        assert(subjects_of(commits@, repo_id, cutoff as int) =~= gather(commits@, f)) by {
            assert(f =~= (|c: CommitWithRepo|
                if c.commit.timestamp >= cutoff as int && c.repo_id == repo_id {
                    Some(c.commit.subject@)
                } else {
                    None
                }));
        }
    }
    let more: usize = if count > 4 {
        count - 4
    } else {
        0
    };
    CommitGroup { repo_id, repo_name, count, subjects, more }
}

/// Groups the commits since a time by repository.
fn commit_groups(commits: &Vec<CommitWithRepo>, cutoff: i64) -> (out: Vec<CommitGroup>)
    ensures
        groups_of(out@, commits@, cutoff as int),
{
    let keys = active_repos(commits, cutoff);
    let ghost list = key_views(keys@);
    let mut out: Vec<CommitGroup> = Vec::new();
    let mut i: usize = 0;
    while i < keys.len()
        invariant
            i <= keys@.len(),
            out@.len() == i,
            list == key_views(keys@),
            active_in(list, commits@, cutoff as int),
            forall|k: int|
                0 <= k < i ==> (#[trigger] out@[k])@ == group_of(
                    commits@,
                    keys@[k].0,
                    cutoff as int,
                ) && out@[k]@.repo_name == keys@[k].1@,
        decreases keys@.len() - i,
    {
        proof {
            assert(list[i as int] == (keys@[i as int].0, keys@[i as int].1@));
            assert(list.contains((keys@[i as int].0, keys@[i as int].1@)));
        }
        out.push(commit_group(commits, keys[i].0, &keys[i].1, cutoff));
        i = i + 1;
    }
    proof {
        assert forall|k: int| 0 <= k < out@.len() implies (#[trigger] out@[k]).repo_id == keys@[k].0
            && out@[k].repo_name@ == keys@[k].1@ by {
            assert(out@[k]@.repo_id == keys@[k].0);
        }
        assert(out@.map_values(|g: CommitGroup| (g.repo_id, g.repo_name@)) =~= list);
    }
    out
}

/// A digest of the day that ends at `now`: the commits by repository, the sessions, and
/// what is left open.
pub fn standup(
    repos: &Vec<Repo>,
    commits: &Vec<CommitWithRepo>,
    sessions: &Vec<SessionWithRepos>,
    now: i64,
) -> (out: Standup)
    requires
        now >= i64::MIN + 86_400,
    ensures
        standup_of(out, repos@, commits@, sessions@, now as int),
{
    let cutoff: i64 = now - 86_400;
    let groups = commit_groups(commits, cutoff);
    let ghost f = |s: SessionWithRepos|
        match s.session.started_at {
            Some(t) => if t >= cutoff {
                Some(opt_text(s.session.summary))
            } else {
                None
            },
            None => None,
        };
    let mut session_count: usize = 0;
    let mut today: Vec<Option<String>> = Vec::new();
    let ghost view = |t: Option<String>| opt_text(t);
    let mut i: usize = 0;
    assert(today@.map_values(view) =~= first(gather(sessions@.take(0), f), 6));
    while i < sessions.len()
        invariant
            i <= sessions@.len(),
            view == (|t: Option<String>| opt_text(t)),
            f == (|s: SessionWithRepos|
                match s.session.started_at {
                    Some(t) => if t >= cutoff {
                        Some(opt_text(s.session.summary))
                    } else {
                        None
                    },
                    None => None,
                }),
            session_count == gather(sessions@.take(i as int), f).len(),
            session_count <= i,
            today@.map_values(view) == first(gather(sessions@.take(i as int), f), 6),
        decreases sessions@.len() - i,
    {
        let s = &sessions[i].session;
        let ghost seen = gather(sessions@.take(i as int), f);
        assert(sessions@.take(i + 1) =~= sessions@.take(i as int).push(sessions@[i as int]));
        let recent = match s.started_at {
            Some(t) => t >= cutoff,
            None => false,
        };
        if recent {
            let ghost before = today@;
            assert(before.map_values(view).len() == before.len());
            if today.len() < 6 {
                let summary = copy_opt(&s.summary);
                today.push(summary);
                assert(today@.map_values(view) =~= before.map_values(view).push(
                    opt_text(s.summary),
                ));
            }
            assert(first(seen.push(opt_text(s.summary)), 6) =~= if seen.len() < 6 {
                first(seen, 6).push(opt_text(s.summary))
            } else {
                first(seen, 6)
            });
            session_count = session_count + 1;
        }
        i = i + 1;
    }
    proof {
        assert(sessions@.take(i as int) =~= sessions@);
        assert(f =~= (|s: SessionWithRepos|
            match s.session.started_at {
                Some(t) => if t >= cutoff as int {
                    Some(opt_text(s.session.summary))
                } else {
                    None
                },
                None => None,
            }));
        assert(summaries_of(sessions@, cutoff as int) == gather(sessions@, f));
    }
    let more_sessions: usize = if session_count > 6 {
        session_count - 6
    } else {
        0
    };
    let (failing, dirty) = open_loops(repos);
    Standup { commits: groups, session_count, sessions: today, more_sessions, failing, dirty }
}

/// The repositories whose default branch fails, and those with uncommitted files.
fn open_loops(repos: &Vec<Repo>) -> (out: (Vec<String>, Vec<(String, i128)>))
    ensures
        texts(out.0@) == failing_names(repos@),
        out.1@.map_values(|d: (String, i128)| (d.0@, d.1 as int)) == dirty_names(repos@),
{
    let ghost f = |r: Repo|
        if failing(r) {
            Some(r.name@)
        } else {
            None
        };
    let ghost g = |r: Repo|
        if uncommitted(r) > 0 {
            Some((r.name@, uncommitted(r)))
        } else {
            None
        };
    let ghost view = |d: (String, i128)| (d.0@, d.1 as int);
    let mut broken: Vec<String> = Vec::new();
    let mut dirty: Vec<(String, i128)> = Vec::new();
    let mut i: usize = 0;
    assert(texts(broken@) =~= gather(repos@.take(0), f));
    assert(dirty@.map_values(view) =~= gather(repos@.take(0), g));
    while i < repos.len()
        invariant
            i <= repos@.len(),
            f == (|r: Repo|
                if failing(r) {
                    Some(r.name@)
                } else {
                    None
                }),
            g == (|r: Repo|
                if uncommitted(r) > 0 {
                    Some((r.name@, uncommitted(r)))
                } else {
                    None
                }),
            view == (|d: (String, i128)| (d.0@, d.1 as int)),
            texts(broken@) == gather(repos@.take(i as int), f),
            dirty@.map_values(view) == gather(repos@.take(i as int), g),
        decreases repos@.len() - i,
    {
        let r = &repos[i];
        let ghost (a, b) = (broken@, dirty@);
        assert(repos@.take(i + 1) =~= repos@.take(i as int).push(*r));
        if opt_is(&r.ci_status, "failure") {
            broken.push(r.name.clone());
            assert(texts(broken@) =~= texts(a).push(r.name@));
        }
        let n: i128 = count_uncommitted(r);
        if n > 0 {
            dirty.push((r.name.clone(), n));
            assert(dirty@.map_values(view) =~= b.map_values(view).push((r.name@, n as int)));
        }
        i = i + 1;
    }
    assert(repos@.take(i as int) =~= repos@);
    (broken, dirty)
}

// ---------------------------------------------------------------------------
// Pills
// ---------------------------------------------------------------------------

/// How loud a pill is.
#[derive(Debug, Clone, Copy, PartialEq, Eq, Structural)]
pub enum Tone {
    Plain,
    /// Something needs attention.
    Alert,
    /// Something is under way.
    Faint,
}

/// A pill: a short text, with a title and a link where it has them.
pub struct Pill {
    pub tone: Tone,
    pub text: String,
    pub title: Option<String>,
    pub href: Option<String>,
}

/// What a [`Pill`] says.
#[verifier::ext_equal]
pub struct PillView {
    pub tone: Tone,
    pub text: Seq<char>,
    pub title: Option<Seq<char>>,
    pub href: Option<Seq<char>>,
}

impl View for Pill {
    type V = PillView;

    open spec fn view(&self) -> PillView {
        PillView {
            tone: self.tone,
            text: self.text@,
            title: opt_text(self.title),
            href: opt_text(self.href),
        }
    }
}

/// The pills that a list holds.
pub open spec fn pill_views(pills: Seq<Pill>) -> Seq<PillView> {
    pills.map_values(|p: Pill| p@)
}

/// A pill that is there where a condition holds.
pub open spec fn when(there: bool, pill: PillView) -> Seq<PillView> {
    if there {
        seq![pill]
    } else {
        Seq::empty()
    }
}

/// A pill with a title.
pub open spec fn titled(tone: Tone, text: Seq<char>, title: Seq<char>) -> PillView {
    PillView { tone, text, title: Some(title), href: None }
}

/// The page of the runs of a branch.
pub open spec fn actions_link(url: Seq<char>, branch: Seq<char>) -> Seq<char> {
    url + "/actions?query=branch%3A"@ + branch
}

/// The page of the runs of a branch.
fn link_to_actions(url: &str, branch: &str) -> (out: String)
    ensures
        out@ == actions_link(url@, branch@),
{
    let mut out = url.to_owned();
    out.append("/actions?query=branch%3A");
    out.append(branch);
    out
}

/// The tone, the text and the title for the outcome of a run; nothing for an outcome that
/// asks for nothing.
pub open spec fn ci_words(status: Seq<char>) -> Option<(Tone, Seq<char>, Seq<char>)> {
    if status == "failure"@ {
        Some((Tone::Alert, "CI failing"@, "latest default-branch CI run failed"@))
    } else if status == "running"@ {
        Some((Tone::Faint, "CI running"@, "default-branch CI currently running"@))
    } else if status == "pending"@ {
        Some((Tone::Faint, "CI pending"@, "default-branch CI is queued / waiting"@))
    } else {
        None
    }
}

/// The pill for a repository's runs, which links to them where the remote and its
/// default branch are known.
pub open spec fn ci_pill_of(r: Repo) -> Seq<PillView> {
    match r.ci_status {
        Some(status) => match ci_words(status@) {
            Some((tone, text, title)) => seq![
                PillView {
                    tone,
                    text,
                    title: Some(title),
                    href: match (r.remote_url, r.default_branch) {
                        (Some(url), Some(branch)) => if branch@.len() > 0 {
                            Some(actions_link(url@, branch@))
                        } else {
                            None
                        },
                        _ => None,
                    },
                },
            ],
            None => Seq::empty(),
        },
        None => Seq::empty(),
    }
}

/// The pill for a repository's runs. A success, or no word of any run, stays silent.
pub fn ci_pill(r: &Repo) -> (out: Option<Pill>)
    ensures
        match out {
            Some(p) => ci_pill_of(*r) == seq![p@],
            None => ci_pill_of(*r).len() == 0,
        },
{
    let status = match &r.ci_status {
        Some(status) => status.as_str(),
        None => {
            return None;
        },
    };
    let (tone, text, title) = if str_eq(status, "failure") {
        (Tone::Alert, "CI failing", "latest default-branch CI run failed")
    } else if str_eq(status, "running") {
        (Tone::Faint, "CI running", "default-branch CI currently running")
    } else if str_eq(status, "pending") {
        (Tone::Faint, "CI pending", "default-branch CI is queued / waiting")
    } else {
        return None;
    };
    let href = match (&r.remote_url, &r.default_branch) {
        (Some(url), Some(branch)) => if chars_of(branch.as_str()).len() > 0 {
            Some(link_to_actions(url.as_str(), branch.as_str()))
        } else {
            None
        },
        _ => None,
    };
    let pill = Pill { tone, text: text.to_owned(), title: Some(title.to_owned()), href };
    assert(ci_pill_of(*r) =~= seq![pill@]);
    Some(pill)
}

/// The pills for what happened in a repository.
pub open spec fn history_pills(r: Repo) -> Seq<PillView> {
    when(
        r.session_count > 0,
        PillView {
            tone: Tone::Plain,
            text: decimal_int(r.session_count as int) + " sessions"@,
            title: None,
            href: None,
        },
    ) + when(
        r.commits_30d > 0,
        titled(
            Tone::Plain,
            decimal_int(r.commits_30d as int) + " commits (30d)"@,
            "commits in the last 30 days"@,
        ),
    ) + when(
        r.loc_churn_30d > 0,
        titled(
            Tone::Plain,
            compact(r.loc_churn_30d as int) + " churn (30d)"@,
            "lines added + deleted in the last 30 days (30-day churn)"@,
        ),
    ) + when(
        r.authors_30d > 0,
        titled(
            Tone::Plain,
            decimal_int(r.authors_30d as int) + " authors (30d)"@,
            "unique commit authors in the last 30 days"@,
        ),
    )
}

/// The pills for the state of a working tree.
pub open spec fn tree_pills(r: Repo) -> Seq<PillView> {
    when(
        uncommitted(r) > 0,
        titled(
            Tone::Alert,
            compact(uncommitted(r)) + " uncommitted"@,
            "working-tree files right now — "@ + decimal_int(r.modified_files as int)
                + " modified + "@ + decimal_int(r.untracked_files as int) + " untracked"@,
        ),
    ) + (match r.in_progress_op {
        Some(op) => seq![
            titled(
                Tone::Alert,
                op@ + " in progress"@,
                "a git operation is mid-flight — finish or abort it"@,
            ),
        ],
        None => Seq::empty(),
    }) + when(
        detached(r),
        titled(Tone::Alert, "detached HEAD"@, "HEAD is detached — not on any branch"@),
    )
}

/// The pills for what is stashed, and for the distance to the upstream.
pub open spec fn sync_pills(r: Repo) -> Seq<PillView> {
    when(
        r.stash_count > 0,
        titled(
            Tone::Plain,
            decimal_int(r.stash_count as int) + " stashed"@,
            "`git stash list` entries"@,
        ),
    ) + when(
        r.commits_ahead > 0,
        titled(
            Tone::Plain,
            "↑ "@ + decimal_int(r.commits_ahead as int) + " unpushed"@,
            "local commits not on origin yet"@,
        ),
    ) + when(
        r.commits_behind > 0,
        titled(
            Tone::Plain,
            "↓ "@ + decimal_int(r.commits_behind as int) + " behind"@,
            "upstream has commits you don't — pull to catch up"@,
        ),
    )
}

/// The pills for what the remote says.
pub open spec fn remote_pills(r: Repo) -> Seq<PillView> {
    ci_pill_of(r) + when(
        r.prs_awaiting_my_review > 0,
        titled(
            Tone::Alert,
            decimal_int(r.prs_awaiting_my_review as int) + " awaiting your review"@,
            "PRs where your review is requested"@,
        ),
    ) + when(
        r.prs_mine_awaiting_review > 0,
        titled(
            Tone::Plain,
            "↗ "@ + decimal_int(r.prs_mine_awaiting_review as int) + " yours open"@,
            "your open PRs waiting on someone else"@,
        ),
    ) + when(
        r.open_prs > 0,
        titled(
            Tone::Plain,
            decimal_int(r.open_prs as int) + " PRs"@ + (if r.draft_prs > 0 {
                " ("@ + decimal_int(r.draft_prs as int) + " draft)"@
            } else {
                Seq::empty()
            }),
            "total open PRs (including drafts)"@,
        ),
    ) + when(
        r.open_issues > 0,
        titled(
            Tone::Plain,
            decimal_int(r.open_issues as int) + " issues"@,
            "total open issues"@,
        ),
    )
}

/// The pills of a repository: what happened in it, the state of its working tree, its
/// distance to the upstream, and what the remote says.
pub open spec fn pills_of(r: Repo) -> Seq<PillView> {
    history_pills(r) + tree_pills(r) + sync_pills(r) + remote_pills(r)
}

/// A count between two words.
fn counted(before: &str, n: i64, after: &str) -> (out: String)
    ensures
        out@ == before@ + decimal_int(n as int) + after@,
{
    let mut out = before.to_owned();
    push_int(&mut out, n);
    out.append(after);
    out
}

/// Adds a pill with a title.
fn push_pill(out: &mut Vec<Pill>, tone: Tone, text: String, title: &str)
    ensures
        pill_views(final(out)@) == pill_views(old(out)@).push(titled(tone, text@, title@)),
{
    let ghost before = out@;
    let pill = Pill { tone, text, title: Some(title.to_owned()), href: None };
    out.push(pill);
    assert(pill_views(out@) =~= pill_views(before).push(pill@));
}

/// An empty text adds nothing.
proof fn lemma_no_prefix(n: int, after: Seq<char>)
    ensures
        ""@ + decimal_int(n) + after == decimal_int(n) + after,
{
    reveal_strlit("");
    assert(""@ + decimal_int(n) + after =~= decimal_int(n) + after);
}

/// Adds the pills for what happened in a repository.
fn push_history(out: &mut Vec<Pill>, r: &Repo)
    ensures
        pill_views(final(out)@) == pill_views(old(out)@) + history_pills(*r),
{
    let ghost start = pill_views(out@);
    if r.session_count > 0 {
        let ghost before = out@;
        let pill = Pill {
            tone: Tone::Plain,
            text: counted("", r.session_count, " sessions"),
            title: None,
            href: None,
        };
        proof {
            lemma_no_prefix(r.session_count as int, " sessions"@);
        }
        out.push(pill);
        assert(pill_views(out@) =~= pill_views(before).push(pill@));
    }
    if r.commits_30d > 0 {
        proof {
            lemma_no_prefix(r.commits_30d as int, " commits (30d)"@);
        }
        push_pill(
            out,
            Tone::Plain,
            counted("", r.commits_30d, " commits (30d)"),
            "commits in the last 30 days",
        );
    }
    if r.loc_churn_30d > 0 {
        let mut text = compact_count(r.loc_churn_30d);
        text.append(" churn (30d)");
        push_pill(
            out,
            Tone::Plain,
            text,
            "lines added + deleted in the last 30 days (30-day churn)",
        );
    }
    if r.authors_30d > 0 {
        proof {
            lemma_no_prefix(r.authors_30d as int, " authors (30d)"@);
        }
        push_pill(
            out,
            Tone::Plain,
            counted("", r.authors_30d, " authors (30d)"),
            "unique commit authors in the last 30 days",
        );
    }
    assert(pill_views(out@) =~= start + history_pills(*r));
}

/// Adds the pills for the state of a working tree.
fn push_tree(out: &mut Vec<Pill>, r: &Repo)
    requires
        in_i64(uncommitted(*r)),
    ensures
        pill_views(final(out)@) == pill_views(old(out)@) + tree_pills(*r),
{
    let ghost start = pill_views(out@);
    let dirty: i64 = r.untracked_files + r.modified_files;
    if dirty > 0 {
        let mut text = compact_count(dirty);
        text.append(" uncommitted");
        let mut title = counted(
            "working-tree files right now — ",
            r.modified_files,
            " modified + ",
        );
        push_int(&mut title, r.untracked_files);
        title.append(" untracked");
        push_pill(out, Tone::Alert, text, title.as_str());
    }
    match &r.in_progress_op {
        Some(op) => {
            let mut text = op.clone();
            text.append(" in progress");
            push_pill(
                out,
                Tone::Alert,
                text,
                "a git operation is mid-flight — finish or abort it",
            );
        },
        None => {},
    }
    if opt_is(&r.head_ref, "detached") {
        push_pill(
            out,
            Tone::Alert,
            "detached HEAD".to_owned(),
            "HEAD is detached — not on any branch",
        );
    }
    assert(pill_views(out@) =~= start + tree_pills(*r));
}

/// Adds the pills for what is stashed, and for the distance to the upstream.
fn push_sync(out: &mut Vec<Pill>, r: &Repo)
    ensures
        pill_views(final(out)@) == pill_views(old(out)@) + sync_pills(*r),
{
    let ghost start = pill_views(out@);
    if r.stash_count > 0 {
        proof {
            lemma_no_prefix(r.stash_count as int, " stashed"@);
        }
        push_pill(
            out,
            Tone::Plain,
            counted("", r.stash_count, " stashed"),
            "`git stash list` entries",
        );
    }
    if r.commits_ahead > 0 {
        push_pill(
            out,
            Tone::Plain,
            counted("↑ ", r.commits_ahead, " unpushed"),
            "local commits not on origin yet",
        );
    }
    if r.commits_behind > 0 {
        push_pill(
            out,
            Tone::Plain,
            counted("↓ ", r.commits_behind, " behind"),
            "upstream has commits you don't — pull to catch up",
        );
    }
    assert(pill_views(out@) =~= start + sync_pills(*r));
}

/// Adds the pills for what the remote says.
fn push_remote(out: &mut Vec<Pill>, r: &Repo)
    ensures
        pill_views(final(out)@) == pill_views(old(out)@) + remote_pills(*r),
{
    let ghost start = pill_views(out@);
    match ci_pill(r) {
        Some(pill) => {
            let ghost before = out@;
            out.push(pill);
            assert(pill_views(out@) =~= pill_views(before).push(pill@));
            assert(ci_pill_of(*r) == seq![pill@]);
        },
        None => {},
    }
    assert(pill_views(out@) =~= start + ci_pill_of(*r));
    if r.prs_awaiting_my_review > 0 {
        proof {
            lemma_no_prefix(r.prs_awaiting_my_review as int, " awaiting your review"@);
        }
        push_pill(
            out,
            Tone::Alert,
            counted("", r.prs_awaiting_my_review, " awaiting your review"),
            "PRs where your review is requested",
        );
    }
    if r.prs_mine_awaiting_review > 0 {
        push_pill(
            out,
            Tone::Plain,
            counted("↗ ", r.prs_mine_awaiting_review, " yours open"),
            "your open PRs waiting on someone else",
        );
    }
    if r.open_prs > 0 {
        proof {
            lemma_no_prefix(r.open_prs as int, " PRs"@);
        }
        let mut text = counted("", r.open_prs, " PRs");
        if r.draft_prs > 0 {
            text.append(counted(" (", r.draft_prs, " draft)").as_str());
        }
        assert(text@ =~= decimal_int(r.open_prs as int) + " PRs"@ + (if r.draft_prs > 0 {
            " ("@ + decimal_int(r.draft_prs as int) + " draft)"@
        } else {
            Seq::empty()
        }));
        push_pill(out, Tone::Plain, text, "total open PRs (including drafts)");
    }
    if r.open_issues > 0 {
        proof {
            lemma_no_prefix(r.open_issues as int, " issues"@);
        }
        push_pill(
            out,
            Tone::Plain,
            counted("", r.open_issues, " issues"),
            "total open issues",
        );
    }
    assert(pill_views(out@) =~= start + remote_pills(*r));
}

/// The pills of a repository, in their order.
pub fn repo_pills(r: &Repo) -> (out: Vec<Pill>)
    requires
        in_i64(uncommitted(*r)),
    ensures
        pill_views(out@) == pills_of(*r),
{
    let mut out: Vec<Pill> = Vec::new();
    assert(pill_views(out@) =~= Seq::empty());
    push_history(&mut out, r);
    push_tree(&mut out, r);
    push_sync(&mut out, r);
    push_remote(&mut out, r);
    assert(pill_views(out@) =~= pills_of(*r));
    out
}

/// Whether some pill of a list alerts.
pub open spec fn alerting(pills: Seq<PillView>) -> bool {
    exists|i: int| 0 <= i < pills.len() && (#[trigger] pills[i]).tone == Tone::Alert
}

/// A pill of two lists alerts where one of either does.
proof fn lemma_alerting_both(a: Seq<PillView>, b: Seq<PillView>)
    ensures
        alerting(a + b) <==> alerting(a) || alerting(b),
{
    let all = a + b;
    if alerting(a) {
        let i = choose|i: int| 0 <= i < a.len() && (#[trigger] a[i]).tone == Tone::Alert;
        assert(all[i].tone == Tone::Alert);
    }
    if alerting(b) {
        let i = choose|i: int| 0 <= i < b.len() && (#[trigger] b[i]).tone == Tone::Alert;
        assert(all[a.len() + i].tone == Tone::Alert);
    }
    if alerting(all) {
        let i = choose|i: int| 0 <= i < all.len() && (#[trigger] all[i]).tone == Tone::Alert;
        if i < a.len() {
            assert(a[i].tone == Tone::Alert);
        } else {
            assert(b[i - a.len()].tone == Tone::Alert);
        }
    }
}

proof fn lemma_history_alerts(r: Repo)
    ensures
        !alerting(history_pills(r)),
{
    assert(forall|i: int|
        0 <= i < history_pills(r).len() ==> (#[trigger] history_pills(r)[i]).tone == Tone::Plain);
}

proof fn lemma_sync_alerts(r: Repo)
    ensures
        !alerting(sync_pills(r)),
{
    assert(forall|i: int|
        0 <= i < sync_pills(r).len() ==> (#[trigger] sync_pills(r)[i]).tone == Tone::Plain);
}

proof fn lemma_tree_alerts(r: Repo)
    ensures
        alerting(tree_pills(r)) <==> uncommitted(r) > 0 || r.in_progress_op is Some || detached(r),
{
    let all = tree_pills(r);
    assert(forall|i: int| 0 <= i < all.len() ==> (#[trigger] all[i]).tone == Tone::Alert);
    if uncommitted(r) > 0 || r.in_progress_op is Some || detached(r) {
        assert(all[0].tone == Tone::Alert);
    }
}

proof fn lemma_remote_alerts(r: Repo)
    ensures
        alerting(remote_pills(r)) <==> failing(r) || r.prs_awaiting_my_review > 0,
{
    let ci = ci_pill_of(r);
    let all = remote_pills(r);
    lemma_status_words();
    assert(ci.len() <= 1);
    assert(ci.len() == 1 ==> (ci[0].tone == Tone::Alert <==> failing(r)));
    assert(failing(r) ==> ci.len() == 1);
    if ci.len() == 1 {
        assert(all[0] == ci[0]);
    }
    if r.prs_awaiting_my_review > 0 {
        assert(all[ci.len() as int].tone == Tone::Alert);
    } else {
        assert(forall|i: int|
            ci.len() <= i < all.len() ==> (#[trigger] all[i]).tone == Tone::Plain);
    }
}

/// A repository has an alerting pill exactly where it needs action, or pull requests
/// of it await the user's review.
pub proof fn law_alerts_tell_of_action(r: Repo)
    ensures
        alerting(pills_of(r)) <==> needs_action(r) || r.prs_awaiting_my_review > 0,
{
    lemma_history_alerts(r);
    lemma_tree_alerts(r);
    lemma_sync_alerts(r);
    lemma_remote_alerts(r);
    lemma_alerting_both(history_pills(r), tree_pills(r));
    lemma_alerting_both(history_pills(r) + tree_pills(r), sync_pills(r));
    lemma_alerting_both(
        history_pills(r) + tree_pills(r) + sync_pills(r),
        remote_pills(r),
    );
}

/// The words for outcomes differ.
proof fn lemma_status_words()
    ensures
        "failure"@ != "running"@,
        "failure"@ != "pending"@,
{
    reveal_strlit("failure");
    reveal_strlit("running");
    reveal_strlit("pending");
    assert("failure"@[0] != "running"@[0]);
    assert("failure"@[0] != "pending"@[0]);
}

// ---------------------------------------------------------------------------
// Rows
// ---------------------------------------------------------------------------

/// The link to a remote, and its text: the tree of the default branch where that is
/// known, and the remote without its scheme.
pub open spec fn link_of(url: Seq<char>, branch: Option<Seq<char>>) -> (Seq<char>, Seq<char>) {
    let shown = match after_prefix(url, "https://"@) {
        Some(rest) => rest,
        None => match after_prefix(url, "http://"@) {
            Some(rest) => rest,
            None => url,
        },
    };
    match branch {
        Some(b) => if b.len() > 0 {
            (url + "/tree/"@ + b, shown + " @ "@ + b)
        } else {
            (url, shown)
        },
        None => (url, shown),
    }
}

/// The link to a repository's remote, and its text; `None` where the remote is not known.
pub fn remote_link(r: &Repo) -> (out: Option<(String, String)>)
    ensures
        match (r.remote_url, out) {
            (Some(url), Some((href, text))) => (href@, text@) == link_of(
                url@,
                opt_text(r.default_branch),
            ),
            (None, None) => true,
            _ => false,
        },
{
    match &r.remote_url {
        Some(url) => {
            let chars = chars_of(url.as_str());
            let shown = match strip_prefix(chars.as_slice(), "https://") {
                Some(rest) => string_of(rest),
                None => match strip_prefix(chars.as_slice(), "http://") {
                    Some(rest) => string_of(rest),
                    None => url.clone(),
                },
            };
            match &r.default_branch {
                Some(branch) => if chars_of(branch.as_str()).len() > 0 {
                    let mut href = url.clone();
                    href.append("/tree/");
                    href.append(branch.as_str());
                    let mut text = shown;
                    text.append(" @ ");
                    text.append(branch.as_str());
                    Some((href, text))
                } else {
                    Some((url.clone(), shown))
                },
                None => Some((url.clone(), shown)),
            }
        },
        None => None,
    }
}

/// A row of the list of repositories.
pub struct RepoRow {
    pub id: i64,
    pub dormant: bool,
    pub name: String,
    pub pills: Vec<Pill>,
    /// The remote, and the text of the link to it.
    pub link: Option<(String, String)>,
    pub path: String,
}

/// What the row of a repository says.
pub open spec fn row_of(row: RepoRow, r: Repo, scan_cwd: Seq<char>) -> bool {
    &&& row.id == r.id
    &&& row.dormant == dormant(r)
    &&& row.name@ == label(r.name@, r.path@, scan_cwd)
    &&& pill_views(row.pills@) == pills_of(r)
    &&& match (r.remote_url, row.link) {
        (Some(url), Some((href, text))) => (href@, text@) == link_of(
            url@,
            opt_text(r.default_branch),
        ),
        (None, None) => true,
        _ => false,
    }
    &&& row.path@ == r.path@
}

/// The rows of the list of repositories, in the order of the list.
pub fn repo_rows(repos: &Vec<Repo>, scan_cwd: &str) -> (out: Vec<RepoRow>)
    requires
        forall|i: int| 0 <= i < repos@.len() ==> in_i64(uncommitted(#[trigger] repos@[i])),
    ensures
        out@.len() == repos@.len(),
        forall|i: int|
            0 <= i < out@.len() ==> row_of(#[trigger] out@[i], repos@[i], scan_cwd@),
{
    let mut out: Vec<RepoRow> = Vec::new();
    let mut i: usize = 0;
    while i < repos.len()
        invariant
            i <= repos@.len(),
            forall|k: int| 0 <= k < repos@.len() ==> in_i64(uncommitted(#[trigger] repos@[k])),
            out@.len() == i,
            forall|k: int|
                0 <= k < out@.len() ==> row_of(#[trigger] out@[k], repos@[k], scan_cwd@),
        decreases repos@.len() - i,
    {
        let r = &repos[i];
        assert(in_i64(uncommitted(repos@[i as int])));
        let row = RepoRow {
            id: r.id,
            dormant: is_dormant(r),
            name: display_name(r, scan_cwd),
            pills: repo_pills(r),
            link: remote_link(r),
            path: r.path.clone(),
        };
        out.push(row);
        i = i + 1;
    }
    out
}

/// The short form of a commit's hash: its first seven bytes.
pub open spec fn short(sha: Seq<char>) -> Option<Seq<char>> {
    if byte_len(sha) <= 7 {
        Some(sha)
    } else {
        match chars_in(sha, 7) {
            Some(k) => Some(sha.take(k as int)),
            None => None,
        }
    }
}

/// A chip with the short form of a hash, and the commit's page where the remote is known.
pub struct ShaChip {
    pub short: String,
    pub href: Option<String>,
}

/// The chip of a commit. A hash that is not of ASCII may have no short form.
pub fn short_sha(sha: &str, remote_url: Option<&str>) -> (out: ShaChip)
    requires
        short(sha@) is Some,
    ensures
        short(sha@) == Some(out.short@),
        opt_text(out.href) == (match opt_str(remote_url) {
            Some(url) => if url.len() > 0 {
                Some(url + "/commit/"@ + sha@)
            } else {
                None
            },
            None => None,
        }),
{
    let chars = chars_of(sha);
    let start = if !has_bytes(chars.as_slice(), 8) {
        sha.to_owned()
    } else {
        match count_chars_in(chars.as_slice(), 7) {
            Some(k) => {
                let head = slice_subrange(chars.as_slice(), 0, k);
                assert(head@ =~= sha@.take(k as int));
                string_of(head)
            },
            None => String::new(),
        }
    };
    let href = match remote_url {
        Some(url) => if chars_of(url).len() > 0 {
            let mut link = url.to_owned();
            link.append("/commit/");
            link.append(sha);
            Some(link)
        } else {
            None
        },
        None => None,
    };
    ShaChip { short: start, href }
}

/// Whether a hash has a short form.
pub fn has_short_form(sha: &str) -> (out: bool)
    ensures
        out == (short(sha@) is Some),
{
    let chars = chars_of(sha);
    !has_bytes(chars.as_slice(), 8) || count_chars_in(chars.as_slice(), 7).is_some()
}

/// A file of the sample of a repository's uncommitted work.
pub struct SampleRow {
    pub untracked: bool,
    /// `new` or `mod`.
    pub word: &'static str,
    pub path: String,
}

/// A repository's uncommitted work, as it is listed.
pub struct UncommittedRows {
    pub repo_id: i64,
    pub repo_name: String,
    /// How many files there are, with the noun.
    pub count: String,
    pub rows: Vec<SampleRow>,
    /// How many files there are beyond the sample, in words, if there are any.
    pub more: Option<String>,
}

/// What is listed of a repository's uncommitted work.
pub open spec fn listed(out: UncommittedRows, g: UncommittedGroup) -> bool {
    &&& out.repo_id == g.repo_id
    &&& out.repo_name@ == g.repo_name@
    &&& out.count@ == decimal_int(g.total as int) + " file"@ + plural(g.total as int)
    &&& out.rows@.len() == g.sample@.len()
    &&& forall|i: int|
        0 <= i < out.rows@.len() ==> {
            let row = #[trigger] out.rows@[i];
            &&& row.untracked == (g.sample@[i].1@ == "untracked"@)
            &&& row.word@ == (if row.untracked {
                "new"@
            } else {
                "mod"@
            })
            &&& row.path@ == g.sample@[i].0@
        }
    &&& opt_text(out.more) == (if g.total > g.sample@.len() {
        Some("…and "@ + decimal_int(g.total - g.sample@.len()) + " more"@)
    } else {
        None
    })
}

/// Lists a repository's uncommitted work.
pub fn list_uncommitted(g: &UncommittedGroup) -> (out: UncommittedRows)
    ensures
        listed(out, *g),
{
    let mut count = String::new();
    push_int(&mut count, g.total);
    count.append(" file");
    count.append(plural_ending(g.total as i128));
    assert(count@ =~= decimal_int(g.total as int) + " file"@ + plural(g.total as int));
    let mut rows: Vec<SampleRow> = Vec::new();
    let mut i: usize = 0;
    while i < g.sample.len()
        invariant
            i <= g.sample@.len(),
            rows@.len() == i,
            forall|k: int|
                0 <= k < rows@.len() ==> {
                    let row = #[trigger] rows@[k];
                    &&& row.untracked == (g.sample@[k].1@ == "untracked"@)
                    &&& row.word@ == (if row.untracked {
                        "new"@
                    } else {
                        "mod"@
                    })
                    &&& row.path@ == g.sample@[k].0@
                },
        decreases g.sample@.len() - i,
    {
        let untracked = str_eq(g.sample[i].1.as_str(), "untracked");
        let word = if untracked {
            "new"
        } else {
            "mod"
        };
        rows.push(SampleRow { untracked, word, path: g.sample[i].0.clone() });
        i = i + 1;
    }
    let shown: usize = g.sample.len();
    let more = if g.total > 0 && g.total as u64 > shown as u64 {
        Some(counted("…and ", g.total - shown as i64, " more"))
    } else {
        None
    };
    UncommittedRows {
        repo_id: g.repo_id,
        repo_name: g.repo_name.clone(),
        count,
        rows,
        more,
    }
}

/// How many files the groups of uncommitted work count in all.
pub open spec fn group_total(groups: Seq<UncommittedGroup>) -> int {
    sum_of(groups, |g: UncommittedGroup| g.total as int)
}

/// The heading over the uncommitted work: how many files there are, in how many
/// repositories; `None` where there is none.
pub open spec fn uncommitted_words(groups: Seq<UncommittedGroup>) -> Option<Seq<char>> {
    if groups.len() == 0 {
        None
    } else {
        Some(
            " ("@ + compact(group_total(groups)) + " file"@ + plural(group_total(groups))
                + " across "@ + decimal(groups.len()) + " repo"@ + plural(groups.len() as int)
                + ")"@,
        )
    }
}

/// Whether the total of every first part of the groups is a number of 64 bits.
pub open spec fn totals_fit(groups: Seq<UncommittedGroup>) -> bool {
    forall|i: int| 0 <= i <= groups.len() ==> in_i64(group_total(#[trigger] groups.take(i)))
}

/// The heading over the uncommitted work.
pub fn uncommitted_heading(groups: &Vec<UncommittedGroup>) -> (out: Option<String>)
    requires
        totals_fit(groups@),
    ensures
        opt_text(out) == uncommitted_words(groups@),
{
    if groups.len() == 0 {
        return None;
    }
    let mut total: i64 = 0;
    let mut i: usize = 0;
    assert(groups@.take(0) =~= Seq::empty());
    while i < groups.len()
        invariant
            i <= groups@.len(),
            totals_fit(groups@),
            total == group_total(groups@.take(i as int)),
        decreases groups@.len() - i,
    {
        assert(groups@.take(i + 1) =~= groups@.take(i as int).push(groups@[i as int]));
        assert(in_i64(group_total(groups@.take(i + 1))));
        total = total + groups[i].total;
        i = i + 1;
    }
    assert(groups@.take(i as int) =~= groups@);
    let mut out = " (".to_owned();
    out.append(compact_count(total).as_str());
    out.append(" file");
    out.append(plural_ending(total as i128));
    out.append(" across ");
    push_decimal(&mut out, groups.len() as u64);
    out.append(" repo");
    out.append(plural_ending(groups.len() as i128));
    out.append(")");
    Some(out)
}

/// The page of the runs of a repository that fails; `None` where its remote or its
/// default branch is not known.
pub fn ci_failure_link(f: &CiFailure) -> (out: Option<String>)
    ensures
        opt_text(out) == (match (f.remote_url, f.default_branch) {
            (Some(url), Some(branch)) => Some(actions_link(url@, branch@)),
            _ => None,
        }),
{
    match (&f.remote_url, &f.default_branch) {
        (Some(url), Some(branch)) => Some(link_to_actions(url.as_str(), branch.as_str())),
        _ => None,
    }
}

// ---------------------------------------------------------------------------
// Laws
// ---------------------------------------------------------------------------

/// The commits shown are those of everyone where no author or `all` is asked for, those of
/// the detected user where `me` is, and those of the email asked for otherwise.
pub proof fn law_authors_are_asked_for(email: Seq<char>, my_email: Option<Seq<char>>)
    ensures
        filter_of(None, my_email) is None,
        filter_of(Some(Seq::empty()), my_email) is None,
        filter_of(Some("all"@), my_email) is None,
        filter_of(Some("me"@), my_email) == my_email,
        email.len() > 0 && email != "all"@ && email != "me"@ ==> filter_of(Some(email), my_email)
            == Some(email),
{
    reveal_strlit("");
    reveal_strlit("all");
    reveal_strlit("me");
    assert(""@ =~= Seq::empty());
    assert("me"@[0] != "all"@[0]);
    assert("me"@ != "all"@);
}

/// The banner counts the repositories of which each thing holds, and adds up the pull
/// requests that await the user's review.
pub proof fn law_banners_count_repositories(
    s: ActionSummary,
    more: ActionSummary,
    repos: Seq<Repo>,
    r: Repo,
)
    requires
        summary_of(s, repos),
        summary_of(more, repos.push(r)),
    ensures
        s.ci_failing == repos.filter(
            |r: Repo| r.ci_status is Some && r.ci_status.unwrap()@ == "failure"@,
        ).len(),
        s.dirty == repos.filter(|r: Repo| r.untracked_files + r.modified_files > 0).len(),
        s.in_progress == repos.filter(|r: Repo| !(r.in_progress_op is None)).len(),
        s.detached == repos.filter(
            |r: Repo| r.head_ref is Some && r.head_ref.unwrap()@ == "detached"@,
        ).len(),
        more.reviews == s.reviews + r.prs_awaiting_my_review,
        repos.len() == 0 ==> s.reviews == 0,
{
    let p = |r: Repo| r.ci_status is Some && r.ci_status.unwrap()@ == "failure"@;
    let q = |r: Repo| r.untracked_files + r.modified_files > 0;
    let o = |r: Repo| !(r.in_progress_op is None);
    let d = |r: Repo| r.head_ref is Some && r.head_ref.unwrap()@ == "detached"@;
    law_counting_is_filtering(repos, p);
    law_counting_is_filtering(repos, q);
    law_counting_is_filtering(repos, o);
    law_counting_is_filtering(repos, d);
    assert(p =~= (|r: Repo| failing(r)));
    assert(q =~= (|r: Repo| uncommitted(r) > 0));
    assert(o =~= (|r: Repo| r.in_progress_op is Some));
    assert(d =~= (|r: Repo| detached(r)));
}

/// Whether a line is among those that a summary is told in.
pub open spec fn tells(s: ActionSummary, line: Seq<char>) -> bool {
    exists|i: int| 0 <= i < s.items().len() && #[trigger] s.items()[i] == line
}

/// One, where something is so.
pub open spec fn one_if(b: bool) -> int {
    if b {
        1
    } else {
        0
    }
}

/// The banner has a line for each count that is not zero, and no others.
pub proof fn law_banners_tell_each_count(s: ActionSummary)
    requires
        s.reviews >= 0,
    ensures
        s.ci_failing == 1 ==> tells(s, decimal(1) + " failing CI"@ + ""@),
        s.ci_failing > 1 ==> tells(s, decimal(s.ci_failing as nat) + " failing CI"@ + "s"@),
        s.dirty == 1 ==> tells(s, decimal(1) + " dirty "@ + "repo"@),
        s.dirty > 1 ==> tells(s, decimal(s.dirty as nat) + " dirty "@ + "repos"@),
        s.in_progress > 0 ==> tells(s, decimal(s.in_progress as nat) + " mid-op"@),
        s.detached == 1 ==> tells(s, decimal(1) + " detached HEAD"@ + ""@),
        s.detached > 1 ==> tells(s, decimal(s.detached as nat) + " detached HEAD"@ + "s"@),
        s.reviews > 0 ==> tells(s, decimal_int(s.reviews as int) + " awaiting your review"@),
        s.items().len() == one_if(s.ci_failing > 0) + one_if(s.dirty > 0) + one_if(
            s.in_progress > 0,
        ) + one_if(s.detached > 0) + one_if(s.reviews > 0),
{
    let (a, b) = (one_if(s.ci_failing > 0), one_if(s.dirty > 0));
    let (c, d) = (one_if(s.in_progress > 0), one_if(s.detached > 0));
    let items = s.items();
    if s.ci_failing > 0 {
        assert(items[0] == decimal(s.ci_failing as nat) + " failing CI"@ + plural(
            s.ci_failing as int,
        ));
    }
    if s.dirty > 0 {
        assert(items[a] == decimal(s.dirty as nat) + " dirty "@ + (if s.dirty == 1 {
            "repo"@
        } else {
            "repos"@
        }));
    }
    if s.in_progress > 0 {
        assert(items[a + b] == decimal(s.in_progress as nat) + " mid-op"@);
    }
    if s.detached > 0 {
        assert(items[a + b + c] == decimal(s.detached as nat) + " detached HEAD"@ + plural(
            s.detached as int,
        ));
    }
    if s.reviews > 0 {
        assert(items[a + b + c + d] == decimal_int(s.reviews as int) + " awaiting your review"@);
    }
}

/// The commits to a repository since a time.
pub open spec fn commits_since(commits: Seq<CommitWithRepo>, id: i64, since: int) -> Seq<
    CommitWithRepo,
> {
    commits.filter(|c: CommitWithRepo| c.repo_id == id && c.commit.timestamp >= since)
}

proof fn lemma_since(commits: Seq<CommitWithRepo>, id: i64, since: int)
    ensures
        subjects_of(commits, id, since) == commits_since(commits, id, since).map_values(
            |c: CommitWithRepo| c.commit.subject@,
        ),
        names_of(commits, id, since) == commits_since(commits, id, since).map_values(
            |c: CommitWithRepo| c.repo_name@,
        ),
{
    let p = |c: CommitWithRepo| c.repo_id == id && c.commit.timestamp >= since;
    law_gathering_is_filtering(
        commits,
        |c: CommitWithRepo|
            if c.commit.timestamp >= since && c.repo_id == id {
                Some(c.commit.subject@)
            } else {
                None
            },
        p,
        |c: CommitWithRepo| c.commit.subject@,
    );
    law_gathering_is_filtering(
        commits,
        |c: CommitWithRepo|
            if c.commit.timestamp >= since && c.repo_id == id {
                Some(c.repo_name@)
            } else {
                None
            },
        p,
        |c: CommitWithRepo| c.repo_name@,
    );
}

/// A standup tells of each repository with commits in the last 24 hours: under its name, how
/// many there are, what the first four are about, and how many more there are.
pub proof fn law_standups_tell_the_commits_of_a_day(
    s: Standup,
    repos: Seq<Repo>,
    commits: Seq<CommitWithRepo>,
    sessions: Seq<SessionWithRepos>,
    now: int,
    i: int,
)
    requires
        standup_of(s, repos, commits, sessions, now),
        0 <= i < s.commits@.len(),
    ensures
        ({
            let g = s.commits@[i];
            let all = commits_since(commits, g.repo_id, now - 24 * 60 * 60);
            &&& all.len() > 0
            &&& g.repo_name@ == all[0].repo_name@
            &&& g.count == all.len()
            &&& g.subjects@.len() + g.more == g.count
            &&& g.subjects@.len() <= 4
            &&& g.more > 0 ==> g.subjects@.len() == 4
            &&& forall|k: int|
                0 <= k < g.subjects@.len() ==> (#[trigger] g.subjects@[k])@ == all[k].commit.subject@
        }),
{
    let since = now - 86_400;
    let g = s.commits@[i];
    let all = commits_since(commits, g.repo_id, since);
    let list = s.commits@.map_values(|g: CommitGroup| (g.repo_id, g.repo_name@));
    lemma_since(commits, g.repo_id, since);
    assert(list[i] == (g.repo_id, g.repo_name@));
    assert(list.contains((g.repo_id, g.repo_name@)));
    assert(g@ == group_of(commits, g.repo_id, since));
    assert(texts(g.subjects@) == first(subjects_of(commits, g.repo_id, since), 4));
    assert(texts(g.subjects@).len() == g.subjects@.len());
    assert forall|k: int| 0 <= k < g.subjects@.len() implies (#[trigger] g.subjects@[k])@
        == all[k].commit.subject@ by {
        assert(texts(g.subjects@)[k] == g.subjects@[k]@);
    }
}

/// No repository with a commit in the last 24 hours is left out of a standup, and they come
/// by their names.
pub proof fn law_standups_leave_no_commit_out(
    s: Standup,
    repos: Seq<Repo>,
    commits: Seq<CommitWithRepo>,
    sessions: Seq<SessionWithRepos>,
    now: int,
    k: int,
)
    requires
        standup_of(s, repos, commits, sessions, now),
        0 <= k < commits.len(),
        commits[k].commit.timestamp >= now - 24 * 60 * 60,
    ensures
        exists|i: int|
            0 <= i < s.commits@.len() && (#[trigger] s.commits@[i]).repo_id == commits[k].repo_id,
        forall|i: int, j: int|
            0 <= i < j < s.commits@.len() ==> !text_before(
                (#[trigger] s.commits@[j]).repo_name@,
                (#[trigger] s.commits@[i]).repo_name@,
            ),
{
    let since = now - 86_400;
    let id = commits[k].repo_id;
    let list = s.commits@.map_values(|g: CommitGroup| (g.repo_id, g.repo_name@));
    law_what_is_gathered(
        commits,
        |c: CommitWithRepo|
            if c.commit.timestamp >= since && c.repo_id == id {
                Some(c.repo_name@)
            } else {
                None
            },
        commits[k].repo_name@,
    );
    let names = names_of(commits, id, since);
    assert(names.contains(commits[k].repo_name@));
    assert(list.contains((id, names[0])));
    let i = choose|i: int| 0 <= i < list.len() && list[i] == (id, names[0]);
    assert(s.commits@[i].repo_id == id);
    assert forall|i: int, j: int| 0 <= i < j < s.commits@.len() implies !text_before(
        (#[trigger] s.commits@[j]).repo_name@,
        (#[trigger] s.commits@[i]).repo_name@,
    ) by {
        assert(comes_before(list[i], list[j]));
        lemma_text_order(list[i].1, list[j].1);
    }
}

/// A standup tells of the sessions started in the last 24 hours: how many there are, what the
/// first six are about, and how many more there are.
pub proof fn law_standups_tell_the_sessions_of_a_day(
    s: Standup,
    repos: Seq<Repo>,
    commits: Seq<CommitWithRepo>,
    sessions: Seq<SessionWithRepos>,
    now: int,
)
    requires
        standup_of(s, repos, commits, sessions, now),
    ensures
        ({
            let all = sessions.filter(
                |x: SessionWithRepos|
                    x.session.started_at is Some && x.session.started_at.unwrap() >= now - 24 * 60
                        * 60,
            );
            &&& s.session_count == all.len()
            &&& s.sessions@.len() + s.more_sessions == all.len()
            &&& s.sessions@.len() <= 6
            &&& s.more_sessions > 0 ==> s.sessions@.len() == 6
            &&& forall|k: int|
                0 <= k < s.sessions@.len() ==> opt_text(#[trigger] s.sessions@[k]) == opt_text(
                    all[k].session.summary,
                )
        }),
{
    let since = now - 86_400;
    let p = |x: SessionWithRepos|
        x.session.started_at is Some && x.session.started_at.unwrap() >= now - 24 * 60 * 60;
    let all = sessions.filter(p);
    law_gathering_is_filtering(
        sessions,
        |s: SessionWithRepos|
            match s.session.started_at {
                Some(t) => if t >= since {
                    Some(opt_text(s.session.summary))
                } else {
                    None
                },
                None => None,
            },
        p,
        |x: SessionWithRepos| opt_text(x.session.summary),
    );
    let today = summaries_of(sessions, since);
    let shown = s.sessions@.map_values(|t: Option<String>| opt_text(t));
    assert(today.len() == all.len());
    assert(shown.len() == s.sessions@.len());
    assert forall|k: int| 0 <= k < s.sessions@.len() implies opt_text(#[trigger] s.sessions@[k])
        == opt_text(all[k].session.summary) by {
        assert(shown[k] == today[k]);
    }
}

/// A standup names the repositories whose latest run failed, and those with uncommitted
/// files together with how many there are.
pub proof fn law_standups_name_what_is_wrong(
    s: Standup,
    repos: Seq<Repo>,
    commits: Seq<CommitWithRepo>,
    sessions: Seq<SessionWithRepos>,
    now: int,
)
    requires
        standup_of(s, repos, commits, sessions, now),
    ensures
        texts(s.failing@) == repos.filter(
            |r: Repo| r.ci_status is Some && r.ci_status.unwrap()@ == "failure"@,
        ).map_values(|r: Repo| r.name@),
        s.dirty@.map_values(|d: (String, i128)| (d.0@, d.1 as int)) == repos.filter(
            |r: Repo| r.untracked_files + r.modified_files > 0,
        ).map_values(|r: Repo| (r.name@, r.untracked_files + r.modified_files)),
{
    law_gathering_is_filtering(
        repos,
        |r: Repo|
            if failing(r) {
                Some(r.name@)
            } else {
                None
            },
        |r: Repo| r.ci_status is Some && r.ci_status.unwrap()@ == "failure"@,
        |r: Repo| r.name@,
    );
    law_gathering_is_filtering(
        repos,
        |r: Repo|
            if uncommitted(r) > 0 {
                Some((r.name@, uncommitted(r)))
            } else {
                None
            },
        |r: Repo| r.untracked_files + r.modified_files > 0,
        |r: Repo| (r.name@, r.untracked_files + r.modified_files),
    );
}

/// A repository is linked to its page, and to its default branch where that is known; the
/// link reads as the address without its scheme.
pub proof fn law_links_lead_to_the_branch(rest: Seq<char>, branch: Seq<char>)
    requires
        branch.len() > 0,
    ensures
        ({
            let url = "https://"@ + rest;
            &&& link_of(url, None) == (url, rest)
            &&& link_of(url, Some(Seq::empty())) == (url, rest)
            &&& link_of(url, Some(branch)) == (url + "/tree/"@ + branch, rest + " @ "@ + branch)
        }),
        ({
            let url = "http://"@ + rest;
            &&& link_of(url, None) == (url, rest)
            &&& link_of(url, Some(Seq::empty())) == (url, rest)
            &&& link_of(url, Some(branch)) == (url + "/tree/"@ + branch, rest + " @ "@ + branch)
        }),
        !has_prefix(rest, "https://"@) && !has_prefix(rest, "http://"@) ==> link_of(rest, None) == (
            rest,
            rest,
        ),
{
    let (s, h) = ("https://"@, "http://"@);
    reveal_strlit("https://");
    reveal_strlit("http://");
    law_ends_of_texts(s, rest);
    law_ends_of_texts(h, rest);
    let url = h + rest;
    assert(url[4] == ':');
    assert(s[4] == 's');
    if has_prefix(url, s) {
        assert(url.take(s.len() as int)[4] == url[4]);
        assert(false);
    }
    assert((s + rest).skip(s.len() as int) =~= rest);
    assert((h + rest).skip(h.len() as int) =~= rest);
}

/// A commit goes by the first seven characters of its hash, or by all of them where there
/// are no more.
pub proof fn law_hashes_are_shortened(sha: Seq<char>)
    requires
        forall|i: int| 0 <= i < sha.len() ==> (#[trigger] sha[i]) as int <= 0x7f,
    ensures
        sha.len() >= 7 ==> short(sha) == Some(sha.take(7)),
        sha.len() < 7 ==> short(sha) == Some(sha),
{
    law_ascii_is_a_byte_each(sha);
    if sha.len() > 7 {
        let a = sha.take(7);
        let b = sha.skip(7);
        assert(a + b =~= sha);
        law_ascii_is_a_byte_each(a);
        law_bytes_are_those_of_the_parts(a, b, 'a');
    } else if sha.len() == 7 {
        assert(sha.take(7) =~= sha);
    }
}

/// The uncommitted files of a repository are listed as they are sampled, untracked ones as
/// new and all others as modified; what is not listed is counted.
pub proof fn law_uncommitted_files_are_listed(out: UncommittedRows, g: UncommittedGroup, i: int)
    requires
        listed(out, g),
        0 <= i < g.sample@.len(),
    ensures
        out.rows@.len() == g.sample@.len(),
        out.rows@[i].path@ == g.sample@[i].0@,
        g.sample@[i].1@ == "untracked"@ ==> out.rows@[i].word@ == "new"@ && out.rows@[i].untracked,
        g.sample@[i].1@ != "untracked"@ ==> out.rows@[i].word@ == "mod"@ && !out.rows@[i].untracked,
        g.total <= g.sample@.len() ==> out.more is None,
        g.total > g.sample@.len() ==> out.more is Some && out.more.unwrap()@ == "…and "@
            + decimal_int(g.total - out.rows@.len()) + " more"@,
        g.total == 1 ==> out.count@ == decimal_int(1) + " file"@ + ""@,
        g.total > 1 ==> out.count@ == decimal_int(g.total as int) + " file"@ + "s"@,
        out.repo_id == g.repo_id,
        out.repo_name@ == g.repo_name@,
{
    let row = out.rows@[i];
}

/// The heading over uncommitted files gives the sum of the files of all repositories, and how
/// many repositories there are; without any there is none.
pub proof fn law_headings_add_up(groups: Seq<UncommittedGroup>, g: UncommittedGroup)
    ensures
        uncommitted_words(Seq::empty()) is None,
        group_total(Seq::empty()) == 0,
        group_total(groups.push(g)) == group_total(groups) + g.total,
        ({
            let all = groups.push(g);
            let n = group_total(groups) + g.total;
            uncommitted_words(all) == Some(
                " ("@ + compact(n) + " file"@ + (if n == 1 {
                    ""@
                } else {
                    "s"@
                }) + " across "@ + decimal(groups.len() + 1) + " repo"@ + (if groups.len() == 0 {
                    ""@
                } else {
                    "s"@
                }) + ")"@,
            )
        }),
{
}

/// Whether a repository is shown with a pill of these words.
pub open spec fn pilled(r: Repo, tone: Tone, text: Seq<char>) -> bool {
    exists|i: int|
        0 <= i < pills_of(r).len() && (#[trigger] pills_of(r)[i]).tone == tone && pills_of(
            r,
        )[i].text == text
}

proof fn lemma_in_part<T>(a: Seq<T>, b: Seq<T>, c: Seq<T>, d: Seq<T>)
    ensures
        forall|i: int| 0 <= i < a.len() ==> (a + b + c + d).contains(#[trigger] a[i]),
        forall|i: int| 0 <= i < b.len() ==> (a + b + c + d).contains(#[trigger] b[i]),
        forall|i: int| 0 <= i < c.len() ==> (a + b + c + d).contains(#[trigger] c[i]),
        forall|i: int| 0 <= i < d.len() ==> (a + b + c + d).contains(#[trigger] d[i]),
{
    let all = a + b + c + d;
    assert forall|i: int| 0 <= i < a.len() implies all.contains(#[trigger] a[i]) by {
        assert(all[i] == a[i]);
    }
    assert forall|i: int| 0 <= i < b.len() implies all.contains(#[trigger] b[i]) by {
        assert(all[a.len() + i] == b[i]);
    }
    assert forall|i: int| 0 <= i < c.len() implies all.contains(#[trigger] c[i]) by {
        assert(all[a.len() + b.len() + i] == c[i]);
    }
    assert forall|i: int| 0 <= i < d.len() implies all.contains(#[trigger] d[i]) by {
        assert(all[a.len() + b.len() + c.len() + i] == d[i]);
    }
}

proof fn lemma_pilled(r: Repo, group: Seq<PillView>, i: int)
    requires
        0 <= i < group.len(),
        group == history_pills(r) || group == tree_pills(r) || group == sync_pills(r) || group
            == remote_pills(r),
    ensures
        pilled(r, group[i].tone, group[i].text),
{
    let (a, b) = (history_pills(r), tree_pills(r));
    let (c, d) = (sync_pills(r), remote_pills(r));
    let all = pills_of(r);
    lemma_in_part(a, b, c, d);
    assert(all.contains(group[i]));
    let k = choose|k: int| 0 <= k < all.len() && all[k] == group[i];
    assert(all[k].tone == group[i].tone);
}

/// Each count of a repository's history that is not zero has a pill of its own.
pub proof fn law_history_has_its_pills(r: Repo)
    ensures
        r.session_count > 0 ==> pilled(
            r,
            Tone::Plain,
            decimal_int(r.session_count as int) + " sessions"@,
        ),
        r.commits_30d > 0 ==> pilled(
            r,
            Tone::Plain,
            decimal_int(r.commits_30d as int) + " commits (30d)"@,
        ),
        r.loc_churn_30d > 0 ==> pilled(
            r,
            Tone::Plain,
            compact(r.loc_churn_30d as int) + " churn (30d)"@,
        ),
        r.authors_30d > 0 ==> pilled(
            r,
            Tone::Plain,
            decimal_int(r.authors_30d as int) + " authors (30d)"@,
        ),
{
    let (a, b) = (one_if(r.session_count > 0), one_if(r.commits_30d > 0));
    let c = one_if(r.loc_churn_30d > 0);
    let group = history_pills(r);
    if r.session_count > 0 {
        assert(group[0].text == decimal_int(r.session_count as int) + " sessions"@);
        lemma_pilled(r, group, 0);
    }
    if r.commits_30d > 0 {
        assert(group[a].text == decimal_int(r.commits_30d as int) + " commits (30d)"@);
        lemma_pilled(r, group, a);
    }
    if r.loc_churn_30d > 0 {
        assert(group[a + b].text == compact(r.loc_churn_30d as int) + " churn (30d)"@);
        lemma_pilled(r, group, a + b);
    }
    if r.authors_30d > 0 {
        assert(group[a + b + c].text == decimal_int(r.authors_30d as int) + " authors (30d)"@);
        lemma_pilled(r, group, a + b + c);
    }
}

/// What is the matter with a working tree has alerting pills: uncommitted files, untracked
/// and modified ones together, an operation that was not finished, and a detached head.
pub proof fn law_working_trees_have_their_pills(r: Repo)
    ensures
        r.untracked_files + r.modified_files > 0 ==> pilled(
            r,
            Tone::Alert,
            compact(r.untracked_files + r.modified_files) + " uncommitted"@,
        ),
        r.in_progress_op is Some ==> pilled(
            r,
            Tone::Alert,
            r.in_progress_op.unwrap()@ + " in progress"@,
        ),
        r.head_ref is Some && r.head_ref.unwrap()@ == "detached"@ ==> pilled(
            r,
            Tone::Alert,
            "detached HEAD"@,
        ),
{
    let a = one_if(r.untracked_files + r.modified_files > 0);
    let b = one_if(r.in_progress_op is Some);
    let group = tree_pills(r);
    if a == 1 {
        assert(group[0].text == compact(r.untracked_files + r.modified_files) + " uncommitted"@);
        lemma_pilled(r, group, 0);
    }
    if r.in_progress_op is Some {
        assert(group[a].text == r.in_progress_op.unwrap()@ + " in progress"@);
        lemma_pilled(r, group, a);
    }
    if r.head_ref is Some && r.head_ref.unwrap()@ == "detached"@ {
        assert(group[a + b].text == "detached HEAD"@);
        lemma_pilled(r, group, a + b);
    }
}

/// What is stashed, not pushed and not pulled each has its pill.
pub proof fn law_distances_have_their_pills(r: Repo)
    ensures
        r.stash_count > 0 ==> pilled(
            r,
            Tone::Plain,
            decimal_int(r.stash_count as int) + " stashed"@,
        ),
        r.commits_ahead > 0 ==> pilled(
            r,
            Tone::Plain,
            "↑ "@ + decimal_int(r.commits_ahead as int) + " unpushed"@,
        ),
        r.commits_behind > 0 ==> pilled(
            r,
            Tone::Plain,
            "↓ "@ + decimal_int(r.commits_behind as int) + " behind"@,
        ),
{
    let (a, b) = (one_if(r.stash_count > 0), one_if(r.commits_ahead > 0));
    let group = sync_pills(r);
    if r.stash_count > 0 {
        assert(group[0].text == decimal_int(r.stash_count as int) + " stashed"@);
        lemma_pilled(r, group, 0);
    }
    if r.commits_ahead > 0 {
        assert(group[a].text == "↑ "@ + decimal_int(r.commits_ahead as int) + " unpushed"@);
        lemma_pilled(r, group, a);
    }
    if r.commits_behind > 0 {
        assert(group[a + b].text == "↓ "@ + decimal_int(r.commits_behind as int) + " behind"@);
        lemma_pilled(r, group, a + b);
    }
}

/// The latest run of a repository has an alerting pill where it failed, and a faint one where
/// it is not over; one that succeeded has none. A pill leads to the runs of the default
/// branch.
pub proof fn law_runs_have_their_pills(r: Repo)
    requires
        r.ci_status is Some,
    ensures
        r.ci_status.unwrap()@ == "failure"@ ==> pilled(r, Tone::Alert, "CI failing"@),
        r.ci_status.unwrap()@ == "running"@ ==> pilled(r, Tone::Faint, "CI running"@),
        r.ci_status.unwrap()@ == "pending"@ ==> pilled(r, Tone::Faint, "CI pending"@),
        r.ci_status.unwrap()@ == "success"@ ==> ci_pill_of(r).len() == 0,
        ci_pill_of(r).len() > 0 && r.remote_url is Some && r.default_branch is Some
            && r.default_branch.unwrap()@.len() > 0 ==> ci_pill_of(r)[0].href == Some(
            r.remote_url.unwrap()@ + "/actions?query=branch%3A"@ + r.default_branch.unwrap()@,
        ),
{
    let pills = ci_pill_of(r);
    reveal_strlit("success");
    reveal_strlit("failure");
    reveal_strlit("running");
    reveal_strlit("pending");
    assert("success"@[0] == 's');
    assert("failure"@[0] == 'f');
    assert("running"@[0] == 'r');
    assert("pending"@[0] == 'p');
    if pills.len() > 0 {
        lemma_run_is_shown(r);
    }
}

proof fn lemma_run_is_shown(r: Repo)
    requires
        ci_pill_of(r).len() > 0,
    ensures
        pilled(r, ci_pill_of(r)[0].tone, ci_pill_of(r)[0].text),
{
    let group = remote_pills(r);
    assert(group[0] == ci_pill_of(r)[0]);
    lemma_pilled(r, group, 0);
}

/// Pull requests that await the user's review have an alerting pill; the user's own, all open
/// ones with the drafts among them, and open issues have plain ones.
pub proof fn law_pull_requests_have_their_pills(r: Repo)
    ensures
        r.prs_awaiting_my_review > 0 ==> pilled(
            r,
            Tone::Alert,
            decimal_int(r.prs_awaiting_my_review as int) + " awaiting your review"@,
        ),
        r.prs_mine_awaiting_review > 0 ==> pilled(
            r,
            Tone::Plain,
            "↗ "@ + decimal_int(r.prs_mine_awaiting_review as int) + " yours open"@,
        ),
        r.open_prs > 0 && r.draft_prs > 0 ==> pilled(
            r,
            Tone::Plain,
            decimal_int(r.open_prs as int) + " PRs"@ + (" ("@ + decimal_int(r.draft_prs as int)
                + " draft)"@),
        ),
        r.open_prs > 0 && r.draft_prs <= 0 ==> pilled(
            r,
            Tone::Plain,
            decimal_int(r.open_prs as int) + " PRs"@,
        ),
        r.open_issues > 0 ==> pilled(
            r,
            Tone::Plain,
            decimal_int(r.open_issues as int) + " issues"@,
        ),
{
    let a = ci_pill_of(r).len() as int;
    let (b, c) = (one_if(r.prs_awaiting_my_review > 0), one_if(r.prs_mine_awaiting_review > 0));
    let d = one_if(r.open_prs > 0);
    let group = remote_pills(r);
    if r.prs_awaiting_my_review > 0 {
        assert(group[a].text == decimal_int(r.prs_awaiting_my_review as int)
            + " awaiting your review"@);
        lemma_pilled(r, group, a);
    }
    if r.prs_mine_awaiting_review > 0 {
        assert(group[a + b].text == "↗ "@ + decimal_int(r.prs_mine_awaiting_review as int)
            + " yours open"@);
        lemma_pilled(r, group, a + b);
    }
    if r.open_prs > 0 {
        let words = decimal_int(r.open_prs as int) + " PRs"@;
        if r.draft_prs > 0 {
            assert(group[a + b + c].text == words + (" ("@ + decimal_int(r.draft_prs as int)
                + " draft)"@));
        } else {
            assert(group[a + b + c].text =~= words + Seq::<char>::empty());
            assert(words + Seq::<char>::empty() =~= words);
        }
        lemma_pilled(r, group, a + b + c);
    }
    if r.open_issues > 0 {
        assert(group[a + b + c + d].text == decimal_int(r.open_issues as int) + " issues"@);
        lemma_pilled(r, group, a + b + c + d);
    }
}

/// A repository is shown with no other pills: there are as many as it has something to show.
pub proof fn law_nothing_else_has_pills(r: Repo)
    ensures
        ({
            let n = one_if(r.session_count > 0) + one_if(r.commits_30d > 0) + one_if(
                r.loc_churn_30d > 0,
            ) + one_if(r.authors_30d > 0);
            let n = n + one_if(r.untracked_files + r.modified_files > 0) + one_if(
                r.in_progress_op is Some,
            ) + one_if(r.head_ref is Some && r.head_ref.unwrap()@ == "detached"@);
            let n = n + one_if(r.stash_count > 0) + one_if(r.commits_ahead > 0) + one_if(
                r.commits_behind > 0,
            );
            let n = n + one_if(
                r.ci_status is Some && (r.ci_status.unwrap()@ == "failure"@
                    || r.ci_status.unwrap()@ == "running"@ || r.ci_status.unwrap()@ == "pending"@),
            ) + one_if(r.prs_awaiting_my_review > 0) + one_if(r.prs_mine_awaiting_review > 0)
                + one_if(r.open_prs > 0) + one_if(r.open_issues > 0);
            pills_of(r).len() == n
        }),
{
    lemma_numbers_of_pills(r);
}

proof fn lemma_numbers_of_pills(r: Repo)
    ensures
        history_pills(r).len() == one_if(r.session_count > 0) + one_if(r.commits_30d > 0) + one_if(
            r.loc_churn_30d > 0,
        ) + one_if(r.authors_30d > 0),
        tree_pills(r).len() == one_if(r.untracked_files + r.modified_files > 0) + one_if(
            r.in_progress_op is Some,
        ) + one_if(r.head_ref is Some && r.head_ref.unwrap()@ == "detached"@),
        sync_pills(r).len() == one_if(r.stash_count > 0) + one_if(r.commits_ahead > 0) + one_if(
            r.commits_behind > 0,
        ),
        ci_pill_of(r).len() == one_if(
            r.ci_status is Some && (r.ci_status.unwrap()@ == "failure"@ || r.ci_status.unwrap()@
                == "running"@ || r.ci_status.unwrap()@ == "pending"@),
        ),
        remote_pills(r).len() == ci_pill_of(r).len() + one_if(r.prs_awaiting_my_review > 0)
            + one_if(r.prs_mine_awaiting_review > 0) + one_if(r.open_prs > 0) + one_if(
            r.open_issues > 0,
        ),
        pills_of(r).len() == history_pills(r).len() + tree_pills(r).len() + sync_pills(r).len()
            + remote_pills(r).len(),
{
}

/// A repository's row has its id, its path and its label, and leads to its remote where there
/// is one.
pub proof fn law_rows_are_of_their_repository(row: RepoRow, r: Repo, scan_cwd: Seq<char>)
    requires
        row_of(row, r, scan_cwd),
    ensures
        row.id == r.id,
        row.path@ == r.path@,
        row.link is Some <==> r.remote_url is Some,
        row.link is Some ==> has_prefix(row.link.unwrap().0@, r.remote_url.unwrap()@),
        row.dormant <==> r.session_count == 0 && r.commits_30d == 0 && r.loc_churn_30d == 0
            && r.authors_30d == 0 && r.untracked_files + r.modified_files == 0 && !failing(r)
            && r.prs_awaiting_my_review == 0 && r.open_prs == 0,
{
    law_dormant_without_signals(r);
    if row.link is Some {
        let (url, href) = (r.remote_url.unwrap()@, row.link.unwrap().0@);
        assert(href.take(url.len() as int) =~= url);
    }
}

} // verus!
