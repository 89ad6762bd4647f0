//! What is asked of `git` and `gh`, and what their answers mean.

use crate::json::{
    int_in, items_in, member, member_of, parse_json, parsed, text_in, trees, Json, JsonTree,
};
use crate::seqs::{
    count_of, gather, group_list_steps, law_counting_is_filtering, law_what_is_gathered, sum_of,
};
use crate::text::{
    after_last, after_prefix, behind_last, byte_len, chars_in, chars_of, count_chars_in, cut_all,
    cut_at_most, cut_once, decimal, decimal_int, decimal_string, digit, has_bytes, has_prefix,
    has_suffix, i64_of, in_i64, index_of, law_after_the_last, law_cut_once_at_the_first, law_cut_parts,
    law_ends_of_texts, law_integers_are_read_back, law_lines_end_at_newlines,
    law_naturals_are_read_back, law_trimmed_is_the_inside, law_words_end_at_white_space, lines,
    lines_of, lossy, lossy_text, occurs_at, opt_str, opt_text, parse_i64, push_int, split_all, split_at_most,
    split_once, stands_at, starts_with, str_eq, strict_text, string_of, strip_prefix, texts, trim,
    trim_suffixes, trimmed, trimmed_nonempty, views, white, without_suffixes, words, words_of,
};
use vstd::prelude::*;
use vstd::slice::slice_subrange;
use vstd::string::StringExecFns;
use vstd::utf8::{decode_utf8, valid_utf8};

verus! {

broadcast use group_list_steps;

// ---------------------------------------------------------------------------
// The log
// ---------------------------------------------------------------------------

/// One commit, as the log gives it.
#[derive(Debug, Clone)]
pub struct CommitRecord {
    pub sha: String,
    pub author_name: String,
    pub author_email: String,
    pub timestamp: i64,
    pub subject: String,
}

/// What a [`CommitRecord`] says.
#[verifier::ext_equal]
pub struct CommitView {
    pub sha: Seq<char>,
    pub author_name: Seq<char>,
    pub author_email: Seq<char>,
    pub timestamp: i64,
    pub subject: Seq<char>,
}

impl View for CommitRecord {
    type V = CommitView;

    open spec fn view(&self) -> CommitView {
        CommitView {
            sha: self.sha@,
            author_name: self.author_name@,
            author_email: self.author_email@,
            timestamp: self.timestamp,
            subject: self.subject@,
        }
    }
}

/// The commits that a list holds.
pub open spec fn commit_views(commits: Seq<CommitRecord>) -> Seq<CommitView> {
    commits.map_values(|c: CommitRecord| c@)
}

/// The arguments of `git` that print the last `limit` commits of all refs, without
/// merges, one to a line, the fields parted by NUL.
pub fn log_args(repo_path: &str, limit: usize) -> (out: Vec<String>)
    ensures
        texts(out@) == seq![
            "-C"@,
            repo_path@,
            "log"@,
            "--all"@,
            "--no-merges"@,
            "-n"@,
            decimal(limit as nat),
            "--format=%H%x00%at%x00%an%x00%ae%x00%s"@,
        ],
{
    let mut out: Vec<String> = Vec::new();
    out.push("-C".to_owned());
    out.push(repo_path.to_owned());
    out.push("log".to_owned());
    out.push("--all".to_owned());
    out.push("--no-merges".to_owned());
    out.push("-n".to_owned());
    out.push(decimal_string(limit as u64));
    out.push("--format=%H%x00%at%x00%an%x00%ae%x00%s".to_owned());
    out
}

/// The commit that a line of the log spells: sha, time, author's name, author's
/// email and subject, where the time is an integer. The subject may hold a NUL.
pub open spec fn logged(line: Seq<char>) -> Option<CommitView> {
    let parts = cut_at_most(line, '\0', 5);
    if parts.len() != 5 {
        None
    } else {
        match i64_of(parts[1]) {
            Some(timestamp) => Some(
                CommitView {
                    sha: parts[0],
                    timestamp,
                    author_name: parts[2],
                    author_email: parts[3],
                    subject: parts[4],
                },
            ),
            None => None,
        }
    }
}

/// The commits that a log spells.
pub open spec fn log_of(text: Seq<char>) -> Seq<CommitView> {
    gather(lines_of(text), |line: Seq<char>| logged(line))
}

/// Reads one line of the log.
fn read_log_line(line: &[char]) -> (out: Option<CommitRecord>)
    ensures
        match out {
            Some(c) => logged(line@) == Some(c@),
            None => logged(line@) is None,
        },
{
    let parts = split_at_most(line, '\0', 5);
    if parts.len() != 5 {
        return None;
    }
    proof {
        assert forall|i: int| 0 <= i < 5 implies #[trigger] parts@[i]@ == cut_at_most(
            line@,
            '\0',
            5,
        )[i] by {
            assert(views(parts@)[i] == parts@[i]@);
        }
    }
    match parse_i64(parts[1]) {
        Some(timestamp) => Some(
            CommitRecord {
                sha: string_of(parts[0]),
                timestamp,
                author_name: string_of(parts[2]),
                author_email: string_of(parts[3]),
                subject: string_of(parts[4]),
            },
        ),
        None => None,
    }
}

/// Reads a log. Lines that spell no commit are passed over.
pub fn read_log(text: &str) -> (out: Vec<CommitRecord>)
    ensures
        commit_views(out@) == log_of(text@),
{
    let chars = chars_of(text);
    let all = lines(chars.as_slice());
    let ghost f = |line: Seq<char>| logged(line);
    let mut out: Vec<CommitRecord> = Vec::new();
    let mut i: usize = 0;
    assert(commit_views(out@) =~= gather(views(all@).take(0), f));
    while i < all.len()
        invariant
            i <= all@.len(),
            f == (|line: Seq<char>| logged(line)),
            commit_views(out@) == gather(views(all@).take(i as int), f),
        decreases all@.len() - i,
    {
        assert(views(all@).take(i + 1) =~= views(all@).take(i as int).push(all@[i as int]@));
        let ghost before = out@;
        match read_log_line(all[i]) {
            Some(c) => {
                out.push(c);
                assert(commit_views(out@) =~= commit_views(before).push(c@));
            },
            None => {},
        }
        i = i + 1;
    }
    assert(views(all@).take(i as int) =~= views(all@));
    out
}

/// The commits that the output of `git log` spells.
pub fn scan_output(stdout: &[u8]) -> (out: Vec<CommitRecord>)
    ensures
        commit_views(out@) == log_of(lossy(stdout@)),
{
    let text = lossy_text(stdout);
    read_log(text.as_str())
}

// ---------------------------------------------------------------------------
// Changes by file
// ---------------------------------------------------------------------------

/// What one commit changed in one file.
#[derive(Debug, Clone)]
pub struct FileChange {
    pub sha: String,
    pub author_email: String,
    pub timestamp: i64,
    pub file_path: String,
    pub additions: i64,
    pub deletions: i64,
}

/// What a [`FileChange`] says.
#[verifier::ext_equal]
pub struct ChangeView {
    pub head: HeadView,
    pub file_path: Seq<char>,
    pub additions: i64,
    pub deletions: i64,
}

/// The commit that a change belongs to.
#[verifier::ext_equal]
pub struct HeadView {
    pub sha: Seq<char>,
    pub timestamp: i64,
    pub author_email: Seq<char>,
}

impl View for FileChange {
    type V = ChangeView;

    open spec fn view(&self) -> ChangeView {
        ChangeView {
            head: HeadView {
                sha: self.sha@,
                timestamp: self.timestamp,
                author_email: self.author_email@,
            },
            file_path: self.file_path@,
            additions: self.additions,
            deletions: self.deletions,
        }
    }
}

/// The changes that a list holds.
pub open spec fn change_views(changes: Seq<FileChange>) -> Seq<ChangeView> {
    changes.map_values(|c: FileChange| c@)
}

/// The arguments of `git` that print, for the commits since a time, a header line
/// each and a line for each file, without merges.
pub fn numstat_args(repo_path: &str, since_ts: i64) -> (out: Vec<String>)
    ensures
        texts(out@) == seq![
            "-C"@,
            repo_path@,
            "log"@,
            "--since=@"@ + decimal_int(since_ts as int),
            "--no-merges"@,
            "--pretty=format:H|%H|%at|%ae"@,
            "--numstat"@,
        ],
{
    let mut since = "--since=@".to_owned();
    push_int(&mut since, since_ts);
    let mut out: Vec<String> = Vec::new();
    out.push("-C".to_owned());
    out.push(repo_path.to_owned());
    out.push("log".to_owned());
    out.push(since);
    out.push("--no-merges".to_owned());
    out.push("--pretty=format:H|%H|%at|%ae".to_owned());
    out.push("--numstat".to_owned());
    out
}

/// The commit that a header line names: `H|sha|time|email`, with 0 for a time that
/// is no integer and nothing for what is missing.
pub open spec fn header(line: Seq<char>) -> Option<HeadView> {
    match after_prefix(line, "H|"@) {
        Some(rest) => {
            let parts = cut_at_most(rest, '|', 3);
            Some(
                HeadView {
                    sha: parts[0],
                    timestamp: if parts.len() > 1 {
                        match i64_of(parts[1]) {
                            Some(t) => t,
                            None => 0,
                        }
                    } else {
                        0
                    },
                    author_email: if parts.len() > 2 {
                        parts[2]
                    } else {
                        Seq::empty()
                    },
                },
            )
        },
        None => None,
    }
}

/// What a file's line says: lines added, lines deleted, and the path. A binary
/// file has dashes in place of the counts, and no say.
pub open spec fn numbers(line: Seq<char>) -> Option<(i64, i64, Seq<char>)> {
    let parts = cut_at_most(line, '\t', 3);
    if header(line) is Some || parts.len() != 3 {
        None
    } else {
        match (i64_of(parts[0]), i64_of(parts[1])) {
            (Some(additions), Some(deletions)) => Some((additions, deletions, parts[2])),
            _ => None,
        }
    }
}

/// The commit that the last header of the lines names; none before the first.
pub open spec fn last_header(all: Seq<Seq<char>>) -> HeadView
    decreases all.len(),
{
    if all.len() == 0 {
        HeadView { sha: Seq::empty(), timestamp: 0, author_email: Seq::empty() }
    } else {
        match header(all.last()) {
            Some(h) => h,
            None => last_header(all.drop_last()),
        }
    }
}

/// The changes that lines spell: each file's line, under the last header before it.
pub open spec fn changes(all: Seq<Seq<char>>) -> Seq<ChangeView>
    decreases all.len(),
{
    if all.len() == 0 {
        Seq::empty()
    } else {
        let front = changes(all.drop_last());
        match numbers(all.last()) {
            Some((additions, deletions, file_path)) => front.push(
                ChangeView {
                    head: last_header(all.drop_last()),
                    file_path,
                    additions,
                    deletions,
                },
            ),
            None => front,
        }
    }
}

/// Reads a header line.
fn read_header(line: &[char]) -> (out: Option<(String, i64, String)>)
    ensures
        match out {
            Some((sha, timestamp, author_email)) => header(line@) == Some(
                (HeadView { sha: sha@, timestamp, author_email: author_email@ }),
            ),
            None => header(line@) is None,
        },
{
    match strip_prefix(line, "H|") {
        Some(rest) => {
            let parts = split_at_most(rest, '|', 3);
            proof {
                assert forall|i: int| 0 <= i < parts@.len() implies #[trigger] parts@[i]@
                    == cut_at_most(rest@, '|', 3)[i] by {
                    assert(views(parts@)[i] == parts@[i]@);
                }
            }
            let sha = string_of(parts[0]);
            let timestamp: i64 = if parts.len() > 1 {
                match parse_i64(parts[1]) {
                    Some(t) => t,
                    None => 0,
                }
            } else {
                0
            };
            let author_email = if parts.len() > 2 {
                string_of(parts[2])
            } else {
                String::new()
            };
            Some((sha, timestamp, author_email))
        },
        None => None,
    }
}

/// Reads a file's line.
fn read_numbers(line: &[char]) -> (out: Option<(i64, i64, String)>)
    requires
        header(line@) is None,
    ensures
        match out {
            Some((additions, deletions, path)) => numbers(line@) == Some(
                (additions, deletions, path@),
            ),
            None => numbers(line@) is None,
        },
{
    let parts = split_at_most(line, '\t', 3);
    proof {
        assert(views(parts@).len() == parts@.len());
        assert forall|i: int| 0 <= i < parts@.len() implies #[trigger] parts@[i]@ == cut_at_most(
            line@,
            '\t',
            3,
        )[i] by {
            assert(views(parts@)[i] == parts@[i]@);
        }
    }
    if parts.len() != 3 {
        return None;
    }
    match (parse_i64(parts[0]), parse_i64(parts[1])) {
        (Some(additions), Some(deletions)) => Some((additions, deletions, string_of(parts[2]))),
        _ => None,
    }
}

/// Reads the changes since a time, commit by commit and file by file.
pub fn read_numstat(text: &str) -> (out: Vec<FileChange>)
    ensures
        change_views(out@) == changes(lines_of(text@)),
{
    let chars = chars_of(text);
    let all = lines(chars.as_slice());
    let mut out: Vec<FileChange> = Vec::new();
    let mut sha = String::new();
    let mut timestamp: i64 = 0;
    let mut author_email = String::new();
    let mut i: usize = 0;
    proof {
        assert(sha@ =~= Seq::empty());
        assert(author_email@ =~= Seq::empty());
        assert(change_views(out@) =~= changes(views(all@).take(0)));
    }
    while i < all.len()
        invariant
            i <= all@.len(),
            change_views(out@) == changes(views(all@).take(i as int)),
            last_header(views(all@).take(i as int)) == (HeadView {
                sha: sha@,
                timestamp,
                author_email: author_email@,
            }),
        decreases all@.len() - i,
    {
        let line = all[i];
        let ghost now = views(all@).take(i + 1);
        proof {
            assert(now.drop_last() =~= views(all@).take(i as int));
            assert(now.last() == line@);
        }
        match read_header(line) {
            Some((s, t, e)) => {
                sha = s;
                timestamp = t;
                author_email = e;
            },
            None => {
                let ghost before = out@;
                match read_numbers(line) {
                    Some((additions, deletions, file_path)) => {
                        let change = FileChange {
                            sha: sha.clone(),
                            author_email: author_email.clone(),
                            timestamp,
                            file_path,
                            additions,
                            deletions,
                        };
                        out.push(change);
                        assert(change_views(out@) =~= change_views(before).push(change@));
                    },
                    None => {},
                }
            },
        }
        i = i + 1;
    }
    assert(views(all@).take(i as int) =~= views(all@));
    out
}

/// The changes that the output of `git log --numstat` spells.
pub fn file_changes_output(stdout: &[u8]) -> (out: Vec<FileChange>)
    ensures
        change_views(out@) == changes(lines_of(lossy(stdout@))),
{
    let text = lossy_text(stdout);
    read_numstat(text.as_str())
}

// ---------------------------------------------------------------------------
// Churn
// ---------------------------------------------------------------------------

/// The arguments of `git` that print a line for each file that the commits since a
/// time changed, without headers and without merges.
pub fn churn_args(repo_path: &str, since_ts: i64) -> (out: Vec<String>)
    ensures
        texts(out@) == seq![
            "-C"@,
            repo_path@,
            "log"@,
            "--since=@"@ + decimal_int(since_ts as int),
            "--no-merges"@,
            "--pretty=format:"@,
            "--numstat"@,
        ],
{
    let mut since = "--since=@".to_owned();
    push_int(&mut since, since_ts);
    let mut out: Vec<String> = Vec::new();
    out.push("-C".to_owned());
    out.push(repo_path.to_owned());
    out.push("log".to_owned());
    out.push(since);
    out.push("--no-merges".to_owned());
    out.push("--pretty=format:".to_owned());
    out.push("--numstat".to_owned());
    out
}

/// How many lines a file's line says were added and deleted; none for any other line.
pub open spec fn line_churn(line: Seq<char>) -> int {
    match numbers(line) {
        Some((additions, deletions, _)) => additions + deletions,
        None => 0,
    }
}

/// How many lines were added and deleted in all.
pub open spec fn churn_of(all: Seq<Seq<char>>) -> int {
    sum_of(all, |line: Seq<char>| line_churn(line))
}

/// Whether every sum on the way to the churn is a number of 64 bits.
pub open spec fn churn_fits(all: Seq<Seq<char>>) -> bool {
    &&& forall|i: int| 0 <= i < all.len() ==> in_i64(line_churn(#[trigger] all[i]))
    &&& forall|i: int| 0 <= i <= all.len() ==> in_i64(churn_of(#[trigger] all.take(i)))
}

/// Reads how many lines a file's line says were added, and how many deleted; none for
/// any other line.
fn read_counts(line: &[char]) -> (out: (i64, i64))
    ensures
        line_churn(line@) == out.0 + out.1,
{
    match read_header(line) {
        Some(_) => (0, 0),
        None => match read_numbers(line) {
            Some((additions, deletions, _)) => (additions, deletions),
            None => (0, 0),
        },
    }
}

/// Adds up the churn, where every sum fits.
fn checked_churn(text: &str) -> (out: Option<i64>)
    ensures
        match out {
            Some(total) => churn_fits(lines_of(text@)) && total == churn_of(lines_of(text@)),
            None => !churn_fits(lines_of(text@)),
        },
{
    let chars = chars_of(text);
    let all = lines(chars.as_slice());
    let ghost rows = views(all@);
    let mut total: i64 = 0;
    let mut i: usize = 0;
    assert(rows.take(0) =~= Seq::empty());
    while i < all.len()
        invariant
            i <= all@.len(),
            rows == views(all@),
            rows == lines_of(text@),
            total == churn_of(rows.take(i as int)),
            forall|k: int| 0 <= k < i ==> in_i64(line_churn(#[trigger] rows[k])),
            forall|k: int| 0 <= k <= i ==> in_i64(churn_of(#[trigger] rows.take(k))),
        decreases all@.len() - i,
    {
        let (add, del): (i64, i64) = read_counts(all[i]);
        let ghost row = rows[i as int];
        proof {
            assert(row == all@[i as int]@);
            assert(rows.take(i + 1) =~= rows.take(i as int).push(row));
            assert(churn_of(rows.take(i + 1)) == total + line_churn(row));
        }
        let changed: i64 = match add.checked_add(del) {
            Some(n) => n,
            None => {
                assert(!in_i64(line_churn(rows[i as int])));
                return None;
            },
        };
        total = match total.checked_add(changed) {
            Some(n) => n,
            None => {
                assert(!in_i64(churn_of(rows.take(i + 1))));
                return None;
            },
        };
        i = i + 1;
    }
    assert(rows.take(i as int) =~= rows);
    Some(total)
}

/// Adds up how many lines were added and deleted.
pub fn read_churn(text: &str) -> (total: i64)
    requires
        churn_fits(lines_of(text@)),
    ensures
        total == churn_of(lines_of(text@)),
{
    match checked_churn(text) {
        Some(total) => total,
        None => 0,
    }
}

/// The lines that a command printed; none where it could not be run, or failed.
pub open spec fn printed_lines(stdout: Option<&[u8]>) -> Seq<Seq<char>> {
    match stdout {
        Some(bytes) => lines_of(lossy(bytes@)),
        None => Seq::empty(),
    }
}

/// The churn that the output of `git log --numstat` without headers adds up to, 0 where
/// git could not be run or failed; `None` where a sum on the way is no number of 64 bits.
pub fn churn_output(stdout: Option<&[u8]>) -> (out: Option<i64>)
    ensures
        stdout is None ==> out == Some(0i64),
        match out {
            Some(total) => churn_fits(printed_lines(stdout)) && total == churn_of(
                printed_lines(stdout),
            ),
            None => !churn_fits(printed_lines(stdout)),
        },
{
    let bytes = match stdout {
        Some(bytes) => bytes,
        None => {
            assert(Seq::<Seq<char>>::empty().take(0) =~= Seq::empty());
            return Some(0);
        },
    };
    let text = lossy_text(bytes);
    match checked_churn(text.as_str()) {
        Some(_) => Some(read_churn(text.as_str())),
        None => None,
    }
}

/// What the files' lines say, in order.
pub open spec fn rows_in(all: Seq<Seq<char>>) -> Seq<(i64, i64, Seq<char>)> {
    gather(all, |line: Seq<char>| numbers(line))
}

/// How many lines rows say were added and deleted.
spec fn sum_of_rows(rows: Seq<(i64, i64, Seq<char>)>) -> int {
    sum_of(rows, |r: (i64, i64, Seq<char>)| r.0 + r.1)
}

/// How many lines a list of changes added and deleted.
pub open spec fn churn_sum(changes: Seq<FileChange>) -> int {
    sum_of(changes, |c: FileChange| c.additions + c.deletions)
}

/// The churn is the sum of the additions and deletions over the changes of the files:
/// where `listed` and `counted` hold the same rows, one with a header for each commit and
/// the other without, what the rows of the second add up to is what the changes that the
/// first spells add up to.
pub proof fn law_churn_sums_the_changes(
    list: Seq<FileChange>,
    listed: Seq<Seq<char>>,
    counted: Seq<Seq<char>>,
)
    requires
        change_views(list) == changes(listed),
        rows_in(listed) == rows_in(counted),
    ensures
        churn_of(counted) == churn_sum(list),
{
    lemma_churn_of_rows(counted);
    lemma_sum_of_changes(list, listed);
}

proof fn lemma_churn_of_rows(all: Seq<Seq<char>>)
    ensures
        churn_of(all) == sum_of_rows(rows_in(all)),
    decreases all.len(),
{
    if all.len() > 0 {
        let rest = all.drop_last();
        lemma_churn_of_rows(rest);
        assert(rest.push(all.last()) =~= all);
    }
}

proof fn lemma_sum_of_changes(list: Seq<FileChange>, all: Seq<Seq<char>>)
    requires
        change_views(list) == changes(all),
    ensures
        churn_sum(list) == sum_of_rows(rows_in(all)),
    decreases all.len(),
{
    assert(list.len() == change_views(list).len());
    if all.len() > 0 {
        let rest = all.drop_last();
        assert(rest.push(all.last()) =~= all);
        match numbers(all.last()) {
            Some(row) => {
                let part = list.drop_last();
                assert(change_views(list).last() == list.last()@);
                assert(changes(all).drop_last() =~= changes(rest));
                assert(change_views(part) =~= change_views(list).drop_last());
                lemma_sum_of_changes(part, rest);
                assert(part.push(list.last()) =~= list);
            },
            None => {
                lemma_sum_of_changes(list, rest);
            },
        }
    }
}

// ---------------------------------------------------------------------------
// The remote
// ---------------------------------------------------------------------------

/// Where a repository comes from. Either may be missing: there may be no origin,
/// its head may not be set locally, or its URL may be in a form that is not known.
#[derive(Debug, Clone, Default)]
pub struct RemoteInfo {
    pub url: Option<String>,
    pub default_branch: Option<String>,
}

/// A text without the slashes and the `.git` it ends with.
pub open spec fn bare(s: Seq<char>) -> Seq<char>
    decreases s.len(),
{
    if s.len() > 0 && s.last() == '/' {
        bare(s.drop_last())
    } else if has_suffix(s, ".git"@) && ".git"@.len() > 0 {
        bare(s.take(s.len() - ".git"@.len()))
    } else {
        s
    }
}

/// Drops the slashes and the `.git` that a text ends with.
fn strip_ending<'a>(s: &'a [char]) -> (out: &'a [char])
    ensures
        out@ == bare(s@),
{
    let ending = chars_of(".git");
    let mut n: usize = s.len();
    proof {
        reveal_strlit(".git");
        assert(s@.take(n as int) =~= s@);
    }
    loop
        invariant
            n <= s@.len(),
            ending@ == ".git"@,
            ending@.len() == 4,
            bare(s@.take(n as int)) == bare(s@),
        ensures
            n <= s@.len(),
            bare(s@) == s@.take(n as int),
        decreases n,
    {
        let ghost cur = s@.take(n as int);
        if n > 0 && s[n - 1] == '/' {
            assert(cur.drop_last() =~= s@.take(n - 1));
            n = n - 1;
            continue;
        }
        let part = slice_subrange(s, 0, n);
        assert(part@ =~= cur);
        if n >= 4 && stands_at(part, ending.as_slice(), n - 4) {
            assert(cur.skip(n - 4) =~= cur.subrange(n - 4, n as int));
            assert(cur.take(n - 4) =~= s@.take(n - 4));
            n = n - 4;
            continue;
        }
        proof {
            if n >= 4 {
                assert(cur.skip(n - 4) =~= cur.subrange(n - 4, n as int));
            }
        }
        break;
    }
    let out = slice_subrange(s, 0, n);
    assert(out@ =~= s@.take(n as int));
    out
}

/// The host that `[user@]host[:port]` names.
pub open spec fn host_of(authority: Seq<char>) -> Seq<char> {
    let behind_user = match cut_once(authority, '@') {
        Some((_, rest)) => rest,
        None => authority,
    };
    cut_all(behind_user, ':')[0]
}

/// What a raw remote URL becomes before its ending is dropped.
pub open spec fn spelled_out(raw: Seq<char>) -> Option<Seq<char>> {
    match after_prefix(raw, "git@"@) {
        Some(rest) => match cut_once(rest, ':') {
            Some((host, path)) => Some("https://"@ + host + "/"@ + path),
            None => None,
        },
        None => match after_prefix(raw, "ssh://"@) {
            Some(rest) => match cut_once(rest, '/') {
                Some((authority, path)) => Some("https://"@ + host_of(authority) + "/"@ + path),
                None => None,
            },
            None => match after_prefix(raw, "http://"@) {
                Some(rest) => Some("https://"@ + rest),
                None => if has_prefix(raw, "https://"@) {
                    Some(raw)
                } else {
                    None
                },
            },
        },
    }
}

/// The browsable HTTPS base that a raw remote URL stands for: `git@host:path`,
/// `ssh://[user@]host[:port]/path` or a URL of the web, without a trailing slash
/// and without a trailing `.git`.
pub open spec fn browsable(raw: Seq<char>) -> Option<Seq<char>> {
    match spelled_out(trimmed(raw)) {
        Some(url) => if bare(url).len() == 0 {
            None
        } else {
            Some(bare(url))
        },
        None => None,
    }
}

/// A URL of a host and a path.
fn web_url(host: &[char], path: &[char]) -> (out: String)
    ensures
        out@ == "https://"@ + host@ + "/"@ + path@,
{
    let mut out = "https://".to_owned();
    out.append(string_of(host).as_str());
    out.append("/");
    out.append(string_of(path).as_str());
    out
}

/// Spells out a raw remote URL.
fn spell_out(raw: &[char]) -> (out: Option<String>)
    ensures
        opt_text(out) == spelled_out(raw@),
{
    match strip_prefix(raw, "git@") {
        Some(rest) => {
            return match split_once(rest, ':') {
                Some((host, path)) => Some(web_url(host, path)),
                None => None,
            };
        },
        None => {},
    }
    match strip_prefix(raw, "ssh://") {
        Some(rest) => {
            return match split_once(rest, '/') {
                Some((authority, path)) => {
                    let behind_user = match split_once(authority, '@') {
                        Some((_, host_and_port)) => host_and_port,
                        None => authority,
                    };
                    let parts = split_all(behind_user, ':');
                    assert(views(parts@)[0] == parts@[0]@);
                    Some(web_url(parts[0], path))
                },
                None => None,
            };
        },
        None => {},
    }
    match strip_prefix(raw, "http://") {
        Some(rest) => {
            let mut out = "https://".to_owned();
            out.append(string_of(rest).as_str());
            return Some(out);
        },
        None => {},
    }
    if starts_with(raw, "https://") {
        Some(string_of(raw))
    } else {
        None
    }
}

/// The browsable HTTPS base that a raw remote URL stands for.
pub fn normalize_remote_url(raw: &str) -> (out: Option<String>)
    ensures
        opt_text(out) == browsable(raw@),
{
    let chars = chars_of(raw);
    let url = match spell_out(trim(chars.as_slice())) {
        Some(url) => url,
        None => {
            return None;
        },
    };
    let url_chars = chars_of(url.as_str());
    let base = strip_ending(url_chars.as_slice());
    if base.len() == 0 {
        None
    } else {
        Some(string_of(base))
    }
}

/// A browsable base ends neither in a slash nor in `.git`.
pub proof fn law_browsable_is_bare(raw: Seq<char>)
    ensures
        browsable(raw) matches Some(url) ==> url.len() > 0 && url.last() != '/' && !has_suffix(
            url,
            ".git"@,
        ),
{
    reveal_strlit(".git");
    match spelled_out(trimmed(raw)) {
        Some(url) => lemma_bare(url),
        None => {},
    }
}

proof fn lemma_bare(s: Seq<char>)
    ensures
        bare(s).len() > 0 ==> bare(s).last() != '/',
        !has_suffix(bare(s), ".git"@),
        bare(bare(s)) == bare(s),
    decreases s.len(),
{
    reveal_strlit(".git");
    if s.len() > 0 && s.last() == '/' {
        lemma_bare(s.drop_last());
    } else if has_suffix(s, ".git"@) {
        lemma_bare(s.take(s.len() - ".git"@.len()));
    }
}

/// The origin that the output of `git remote get-url origin` names.
pub fn origin_output(stdout: &[u8]) -> (out: Option<String>)
    ensures
        opt_text(out) == (if valid_utf8(stdout@) {
            browsable(decode_utf8(stdout@))
        } else {
            None
        }),
{
    match strict_text(stdout) {
        Some(text) => normalize_remote_url(text.as_str()),
        None => None,
    }
}

/// The branch that a symbolic ref of origin's head names.
pub open spec fn branch_of(text: Seq<char>) -> Option<Seq<char>> {
    after_prefix(trimmed(text), "refs/remotes/origin/"@)
}

/// The default branch that the output of `git symbolic-ref
/// refs/remotes/origin/HEAD` names.
pub fn default_branch_output(stdout: &[u8]) -> (out: Option<String>)
    ensures
        opt_text(out) == (if valid_utf8(stdout@) {
            branch_of(decode_utf8(stdout@))
        } else {
            None
        }),
{
    match strict_text(stdout) {
        Some(text) => {
            let chars = chars_of(text.as_str());
            match strip_prefix(trim(chars.as_slice()), "refs/remotes/origin/") {
                Some(branch) => Some(string_of(branch)),
                None => None,
            }
        },
        None => None,
    }
}

/// `OWNER/NAME` of a remote on GitHub: exactly two parts behind the host, neither
/// of them empty; slashes at the end do not count.
pub open spec fn owner_repo(url: Seq<char>) -> Option<Seq<char>> {
    match after_prefix(url, "https://github.com/"@) {
        Some(rest) => {
            let parts = cut_all(without_suffixes(rest, "/"@), '/');
            if parts.len() == 2 && parts[0].len() > 0 && parts[1].len() > 0 {
                Some(parts[0] + "/"@ + parts[1])
            } else {
                None
            }
        },
        None => None,
    }
}

/// `OWNER/NAME` of a remote on GitHub, and nothing for any other remote.
pub fn github_owner_repo(remote_url: &str) -> (out: Option<String>)
    ensures
        opt_text(out) == owner_repo(remote_url@),
{
    let chars = chars_of(remote_url);
    match strip_prefix(chars.as_slice(), "https://github.com/") {
        Some(rest) => {
            let parts = split_all(trim_suffixes(rest, "/"), '/');
            assert(parts@.len() == views(parts@).len());
            if parts.len() != 2 {
                return None;
            }
            assert(views(parts@)[0] == parts@[0]@);
            assert(views(parts@)[1] == parts@[1]@);
            if parts[0].len() == 0 || parts[1].len() == 0 {
                return None;
            }
            let mut out = string_of(parts[0]);
            out.append("/");
            out.append(string_of(parts[1]).as_str());
            Some(out)
        },
        None => None,
    }
}

// ---------------------------------------------------------------------------
// The local state
// ---------------------------------------------------------------------------

/// What plain `git` says of a repository right now.
#[derive(Debug, Clone, Default)]
pub struct LocalState {
    pub commits_ahead: i64,
    pub commits_behind: i64,
    pub stash_count: i64,
    /// Short name of the branch, or `detached`.
    pub head_ref: Option<String>,
    /// The operation that was interrupted, if one was.
    pub in_progress_op: Option<String>,
}

/// What a command printed, without white space at either end.
pub fn command_text(stdout: &[u8]) -> (out: String)
    ensures
        out@ == trimmed(lossy(stdout@)),
{
    let text = lossy_text(stdout);
    let chars = chars_of(text.as_str());
    string_of(trim(chars.as_slice()))
}

/// How far a branch is behind its upstream, and how far ahead: the first two words,
/// where both are integers.
pub open spec fn distances(text: Seq<char>) -> Option<(i64, i64)> {
    let parts = words_of(text);
    if parts.len() < 2 {
        None
    } else {
        match (i64_of(parts[0]), i64_of(parts[1])) {
            (Some(behind), Some(ahead)) => Some((behind, ahead)),
            _ => None,
        }
    }
}

/// Reads how far a branch is behind its upstream, and how far ahead.
fn read_distances(text: &str) -> (out: Option<(i64, i64)>)
    ensures
        out == distances(text@),
{
    let chars = chars_of(text);
    let parts = words(chars.as_slice());
    assert(parts@.len() == views(parts@).len());
    if parts.len() < 2 {
        return None;
    }
    assert(views(parts@)[0] == parts@[0]@);
    assert(views(parts@)[1] == parts@[1]@);
    match (parse_i64(parts[0]), parse_i64(parts[1])) {
        (Some(behind), Some(ahead)) => Some((behind, ahead)),
        _ => None,
    }
}

/// How many lines of a text are not empty.
pub open spec fn full_lines(text: Seq<char>) -> nat {
    count_of(lines_of(text), |line: Seq<char>| line.len() > 0)
}

/// A text has no more lines than characters.
proof fn lemma_lines_len(s: Seq<char>)
    ensures
        lines_of(s).len() <= s.len(),
    decreases s.len(),
{
    let k = index_of(s, '\n') as int;
    if s.len() > 0 && k < s.len() {
        lemma_lines_len(s.skip(k + 1));
    }
}

/// Counts the lines that are not empty.
fn count_full_lines(text: &str) -> (n: i64)
    requires
        text@.len() <= i64::MAX,
    ensures
        n == full_lines(text@),
{
    let chars = chars_of(text);
    let all = lines(chars.as_slice());
    let ghost rows = views(all@);
    let ghost f = |line: Seq<char>| line.len() > 0;
    let mut n: i64 = 0;
    let mut i: usize = 0;
    proof {
        lemma_lines_len(text@);
        assert(rows.take(0) =~= Seq::empty());
    }
    while i < all.len()
        invariant
            i <= all@.len() <= i64::MAX,
            rows == views(all@),
            f == (|line: Seq<char>| line.len() > 0),
            n == count_of(rows.take(i as int), f),
            n <= i,
        decreases all@.len() - i,
    {
        assert(rows.take(i + 1) =~= rows.take(i as int).push(all@[i as int]@));
        if all[i].len() > 0 {
            n = n + 1;
        }
        i = i + 1;
    }
    assert(rows.take(i as int) =~= rows);
    n
}

/// The files in the git directory that a repository in the middle of an operation
/// has, with the operation each of them tells of, the most common first.
pub open spec fn markers() -> Seq<(Seq<char>, Seq<char>)> {
    seq![
        ("rebase"@, "rebase-merge"@),
        ("rebase"@, "rebase-apply"@),
        ("merge"@, "MERGE_HEAD"@),
        ("cherry-pick"@, "CHERRY_PICK_HEAD"@),
        ("revert"@, "REVERT_HEAD"@),
        ("bisect"@, "BISECT_LOG"@),
    ]
}

/// The operations and the files that tell of them.
pub fn op_markers() -> (out: Vec<(&'static str, &'static str)>)
    ensures
        out@.map_values(|m: (&'static str, &'static str)| (m.0@, m.1@)) == markers(),
{
    let mut out: Vec<(&'static str, &'static str)> = Vec::new();
    out.push(("rebase", "rebase-merge"));
    out.push(("rebase", "rebase-apply"));
    out.push(("merge", "MERGE_HEAD"));
    out.push(("cherry-pick", "CHERRY_PICK_HEAD"));
    out.push(("revert", "REVERT_HEAD"));
    out.push(("bisect", "BISECT_LOG"));
    assert(out@.map_values(|m: (&'static str, &'static str)| (m.0@, m.1@)) =~= markers());
    out
}

/// The operation of the first file that is there, from index `i` on.
pub open spec fn op_from(present: Seq<bool>, i: int) -> Option<Seq<char>>
    decreases markers().len() - i,
{
    if i < 0 || i >= present.len() || i >= markers().len() {
        None
    } else if present[i] {
        Some(markers()[i].0)
    } else {
        op_from(present, i + 1)
    }
}

/// The operation that a repository is in the middle of, from which of the files of
/// [`op_markers`] are there.
pub fn in_progress_op(present: &Vec<bool>) -> (out: Option<String>)
    ensures
        opt_text(out) == op_from(present@, 0),
{
    let all = op_markers();
    let ghost named = all@.map_values(|m: (&'static str, &'static str)| (m.0@, m.1@));
    assert(named.len() == all@.len());
    let mut i: usize = 0;
    while i < all.len() && i < present.len()
        invariant
            i <= all@.len(),
            i <= present@.len(),
            named == all@.map_values(|m: (&'static str, &'static str)| (m.0@, m.1@)),
            named == markers(),
            all@.len() == markers().len(),
            op_from(present@, 0) == op_from(present@, i as int),
        decreases all@.len() - i,
    {
        assert(named[i as int] == (all@[i as int].0@, all@[i as int].1@));
        if present[i] {
            return Some(all[i].0.to_owned());
        }
        i = i + 1;
    }
    None
}

/// Puts together the local state: what `git` printed for the branch, for the commit,
/// for the distances to the upstream and for the stashes, each of them `None` where
/// the command failed, and the operation in progress.
///
/// A head that is no branch is detached where there is a commit, and unknown where
/// there is none. Without an upstream the distances are 0.
pub fn local_state_of(
    branch: Option<String>,
    commit: Option<String>,
    counts: Option<String>,
    stashes: Option<String>,
    op: Option<String>,
) -> (out: LocalState)
    requires
        stashes matches Some(s) ==> s@.len() <= i64::MAX,
    ensures
        opt_text(out.head_ref) == (match (branch, commit) {
            (Some(b), _) => Some(b@),
            (None, Some(_)) => Some("detached"@),
            (None, None) => None,
        }),
        (out.commits_behind, out.commits_ahead) == (match counts {
            Some(text) => match distances(text@) {
                Some(d) => d,
                None => (0i64, 0i64),
            },
            None => (0i64, 0i64),
        }),
        out.stash_count == (match stashes {
            Some(text) => full_lines(text@) as int,
            None => 0,
        }),
        out.in_progress_op == op,
{
    let head_ref = match branch {
        Some(b) => Some(b),
        None => match commit {
            Some(_) => Some("detached".to_owned()),
            None => None,
        },
    };
    let (behind, ahead) = match counts {
        Some(text) => match read_distances(text.as_str()) {
            Some(d) => d,
            None => (0i64, 0i64),
        },
        None => (0i64, 0i64),
    };
    let stash_count: i64 = match stashes {
        Some(text) => count_full_lines(text.as_str()),
        None => 0,
    };
    LocalState {
        commits_ahead: ahead,
        commits_behind: behind,
        stash_count,
        head_ref,
        in_progress_op: op,
    }
}

// ---------------------------------------------------------------------------
// The working tree
// ---------------------------------------------------------------------------

/// Whether a file of the working tree is known to git.
#[derive(Debug, Clone, Copy, PartialEq, Eq, Structural)]
pub enum FileKind {
    Untracked,
    Modified,
}

impl FileKind {
    /// The word for the kind.
    pub open spec fn word(self) -> Seq<char> {
        match self {
            FileKind::Untracked => "untracked"@,
            FileKind::Modified => "modified"@,
        }
    }

    /// The word for the kind.
    pub fn as_str(self) -> (out: &'static str)
        ensures
            out@ == self.word(),
    {
        match self {
            FileKind::Untracked => "untracked",
            FileKind::Modified => "modified",
        }
    }
}

/// A file of the working tree that is not as it was committed.
#[derive(Debug, Clone)]
pub struct WorktreeFile {
    pub path: String,
    pub kind: FileKind,
}

/// The state of a working tree: how many files are dirty, and the first of them.
#[derive(Debug, Clone, Default)]
pub struct WorktreeSnapshot {
    pub files: Vec<WorktreeFile>,
    pub total_untracked: i64,
    pub total_modified: i64,
}

impl WorktreeSnapshot {
    /// How many files are dirty.
    pub fn total(&self) -> (n: i64)
        requires
            in_i64(self.total_untracked + self.total_modified),
        ensures
            n == self.total_untracked + self.total_modified,
    {
        self.total_untracked + self.total_modified
    }
}

/// A path and its kind.
pub type FileView = (Seq<char>, FileKind);

/// The files that a list holds.
pub open spec fn file_views(files: Seq<WorktreeFile>) -> Seq<FileView> {
    files.map_values(|f: WorktreeFile| (f.path@, f.kind))
}

/// Whether the status of a line is that of a renamed or copied file, which has the old
/// path before the new one.
pub open spec fn has_two_paths(line: Seq<char>) -> bool {
    line.len() >= 2 && (line[0] == 'R' || line[0] == 'C' || line[1] == 'R' || line[1] == 'C')
}

/// The file that a line of `git status --porcelain=v1` tells of: two characters of
/// status, a space, and the path, of a renamed file the new one. A line of less
/// than four bytes tells of none.
pub open spec fn dirty_file(line: Seq<char>) -> Option<FileView> {
    if byte_len(line) < 4 {
        None
    } else {
        match chars_in(line, 3) {
            Some(k) => Some(
                (
                    if has_two_paths(line) {
                        trimmed(after_last(line.skip(k as int), " -> "@))
                    } else {
                        trimmed(line.skip(k as int))
                    },
                    if has_prefix(line, "??"@) {
                        FileKind::Untracked
                    } else {
                        FileKind::Modified
                    },
                ),
            ),
            None => None,
        }
    }
}

/// Whether the third byte of a line that tells of a file ends a character, as it
/// does behind two characters of ASCII and a space.
pub open spec fn parted(line: Seq<char>) -> bool {
    byte_len(line) < 4 || chars_in(line, 3) is Some
}

/// Whether all lines of a text are parted.
pub open spec fn all_parted(text: Seq<char>) -> bool {
    forall|i: int| 0 <= i < lines_of(text).len() ==> parted(#[trigger] lines_of(text)[i])
}

/// The dirty files that a text tells of.
pub open spec fn dirty_files(text: Seq<char>) -> Seq<FileView> {
    gather(lines_of(text), |line: Seq<char>| dirty_file(line))
}

/// How many of the files are of a kind.
pub open spec fn of_kind(files: Seq<FileView>, kind: FileKind) -> nat {
    count_of(files, |f: FileView| f.1 == kind)
}

/// The first files, up to `cap` of them.
pub open spec fn sample(files: Seq<FileView>, cap: nat) -> Seq<FileView> {
    if files.len() <= cap {
        files
    } else {
        files.take(cap as int)
    }
}

/// What a snapshot says of a text.
pub open spec fn snapshot_of(snap: WorktreeSnapshot, text: Seq<char>, cap: nat) -> bool {
    let files = dirty_files(text);
    &&& file_views(snap.files@) == sample(files, cap)
    &&& snap.total_untracked == of_kind(files, FileKind::Untracked)
    &&& snap.total_modified == of_kind(files, FileKind::Modified)
}

/// What is gathered from a list is no longer than the list.
proof fn lemma_gather_len<A, B>(s: Seq<A>, f: spec_fn(A) -> Option<B>)
    ensures
        gather(s, f).len() <= s.len(),
    decreases s.len(),
{
    if s.len() > 0 {
        lemma_gather_len(s.drop_last(), f);
    }
}

/// Every file is of one of the two kinds.
proof fn lemma_kinds(files: Seq<FileView>)
    ensures
        of_kind(files, FileKind::Untracked) + of_kind(files, FileKind::Modified) == files.len(),
    decreases files.len(),
{
    if files.len() > 0 {
        lemma_kinds(files.drop_last());
    }
}

/// Reads a line that is parted.
fn read_status_line(line: &[char]) -> (out: Option<WorktreeFile>)
    requires
        parted(line@),
    ensures
        match out {
            Some(f) => dirty_file(line@) == Some((f.path@, f.kind)),
            None => dirty_file(line@) is None,
        },
{
    if !has_bytes(line, 4) {
        return None;
    }
    let k: usize = match count_chars_in(line, 3) {
        Some(k) => k,
        None => {
            return None;
        },
    };
    let kind = if starts_with(line, "??") {
        FileKind::Untracked
    } else {
        FileKind::Modified
    };
    let rest = slice_subrange(line, k, line.len());
    assert(rest@ =~= line@.skip(k as int));
    let two_paths = line.len() >= 2 && (line[0] == 'R' || line[0] == 'C' || line[1] == 'R'
        || line[1] == 'C');
    let path = if two_paths {
        trim(behind_last(rest, " -> "))
    } else {
        trim(rest)
    };
    Some(WorktreeFile { path: string_of(path), kind })
}

/// Reads the state of a working tree, with a sample of at most `paths_cap` files.
pub fn read_status(text: &str, paths_cap: usize) -> (snap: WorktreeSnapshot)
    requires
        all_parted(text@),
        text@.len() <= i64::MAX,
    ensures
        snapshot_of(snap, text@, paths_cap as nat),
{
    let chars = chars_of(text);
    let all = lines(chars.as_slice());
    let ghost rows = views(all@);
    let ghost f = |line: Seq<char>| dirty_file(line);
    let ghost cap = paths_cap as nat;
    let mut files: Vec<WorktreeFile> = Vec::new();
    let mut untracked: i64 = 0;
    let mut modified: i64 = 0;
    let mut i: usize = 0;
    proof {
        lemma_lines_len(text@);
        assert(rows.take(0) =~= Seq::empty());
        assert(file_views(files@) =~= sample(gather(rows.take(0), f), cap));
    }
    while i < all.len()
        invariant
            i <= all@.len() <= i64::MAX,
            rows == views(all@),
            rows == lines_of(text@),
            all_parted(text@),
            cap == paths_cap,
            f == (|line: Seq<char>| dirty_file(line)),
            file_views(files@) == sample(gather(rows.take(i as int), f), cap),
            untracked == of_kind(gather(rows.take(i as int), f), FileKind::Untracked),
            modified == of_kind(gather(rows.take(i as int), f), FileKind::Modified),
        decreases all@.len() - i,
    {
        let ghost seen = gather(rows.take(i as int), f);
        proof {
            assert(rows[i as int] == all@[i as int]@);
            assert(parted(lines_of(text@)[i as int]));
            assert(rows.take(i + 1) =~= rows.take(i as int).push(all@[i as int]@));
            lemma_gather_len(rows.take(i as int), f);
            lemma_kinds(seen);
        }
        match read_status_line(all[i]) {
            Some(file) => {
                let ghost now: FileView = (file.path@, file.kind);
                let ghost before = files@;
                match file.kind {
                    FileKind::Untracked => {
                        untracked = untracked + 1;
                    },
                    FileKind::Modified => {
                        modified = modified + 1;
                    },
                }
                if files.len() < paths_cap {
                    files.push(file);
                    assert(file_views(files@) =~= file_views(before).push(now));
                }
                assert(sample(seen.push(now), cap) =~= if seen.len() < cap {
                    sample(seen, cap).push(now)
                } else {
                    sample(seen, cap)
                });
                assert(file_views(files@) == sample(seen.push(now), cap));
            },
            None => {},
        }
        i = i + 1;
    }
    assert(rows.take(i as int) =~= rows);
    WorktreeSnapshot { files, total_untracked: untracked, total_modified: modified }
}

/// Whether all lines of a text are parted.
fn is_all_parted(text: &str) -> (out: bool)
    ensures
        out == all_parted(text@),
{
    let chars = chars_of(text);
    let all = lines(chars.as_slice());
    let ghost rows = views(all@);
    let mut i: usize = 0;
    while i < all.len()
        invariant
            i <= all@.len(),
            rows == views(all@),
            rows == lines_of(text@),
            forall|k: int| 0 <= k < i ==> parted(#[trigger] lines_of(text@)[k]),
        decreases all@.len() - i,
    {
        assert(rows[i as int] == all@[i as int]@);
        if has_bytes(all[i], 4) && count_chars_in(all[i], 3).is_none() {
            assert(!parted(lines_of(text@)[i as int]));
            return false;
        }
        i = i + 1;
    }
    assert(rows.len() == all@.len());
    true
}

/// The state that the output of `git status --porcelain=v1` tells of; `None` where
/// a line is not parted, or the text is longer than a number of 64 bits can say.
pub fn worktree_output(stdout: &[u8], paths_cap: usize) -> (out: Option<WorktreeSnapshot>)
    ensures
        match out {
            Some(snap) => all_parted(lossy(stdout@)) && lossy(stdout@).len() <= i64::MAX
                && snapshot_of(snap, lossy(stdout@), paths_cap as nat),
            None => !all_parted(lossy(stdout@)) || lossy(stdout@).len() > i64::MAX,
        },
{
    let text = lossy_text(stdout);
    if !is_all_parted(text.as_str()) || chars_of(text.as_str()).len() as u64 > i64::MAX as u64 {
        return None;
    }
    Some(read_status(text.as_str(), paths_cap))
}

/// The sample of a snapshot is never longer than the totals say, nor than the cap.
pub proof fn law_sample_within_totals(snap: WorktreeSnapshot, text: Seq<char>, cap: nat)
    requires
        snapshot_of(snap, text, cap),
    ensures
        snap.files@.len() <= cap,
        snap.files@.len() <= snap.total_untracked + snap.total_modified,
        snap.total_untracked + snap.total_modified <= cap ==> snap.files@.len()
            == snap.total_untracked + snap.total_modified,
{
    let files = dirty_files(text);
    lemma_kinds(files);
    assert(file_views(snap.files@).len() == snap.files@.len());
}

// ---------------------------------------------------------------------------
// GitHub
// ---------------------------------------------------------------------------

/// The state of the `gh` command.
#[derive(Debug, Clone, Copy, PartialEq, Eq, Default, Structural)]
pub enum GhHealth {
    /// It runs, and an account is logged in.
    #[default]
    Ready,
    /// It runs, and no account is logged in.
    NotAuthenticated,
    /// It could not be run.
    Missing,
}

/// The state of `gh`, from how asking it for its version and for its login went:
/// `None` where the command could not be run, else whether it succeeded.
pub fn gh_health_of(version: Option<bool>, login: Option<bool>) -> (out: GhHealth)
    ensures
        out == GhHealth::Ready <==> version == Some(true) && login == Some(true),
        out == GhHealth::NotAuthenticated <==> version == Some(true) && login == Some(false),
{
    match (version, login) {
        (Some(true), Some(true)) => GhHealth::Ready,
        (Some(true), Some(false)) => GhHealth::NotAuthenticated,
        _ => GhHealth::Missing,
    }
}

/// What a command printed, without white space at either end, where that is anything:
/// a login that `gh` prints, an email that `git` prints.
pub fn printed_answer(stdout: &[u8]) -> (out: Option<String>)
    ensures
        opt_text(out) == (if trimmed(lossy(stdout@)).len() == 0 {
            None
        } else {
            Some(trimmed(lossy(stdout@)))
        }),
{
    let text = lossy_text(stdout);
    trimmed_nonempty(text.as_str())
}

/// The arguments of `gh` that print the latest run of a branch.
pub fn run_list_args(owner_repo: &str, default_branch: &str) -> (out: Vec<String>)
    ensures
        texts(out@) == seq![
            "run"@,
            "list"@,
            "--json"@,
            "status,conclusion"@,
            "-L"@,
            "1"@,
            "--branch"@,
            default_branch@,
            "-R"@,
            owner_repo@,
        ],
{
    let mut out: Vec<String> = Vec::new();
    out.push("run".to_owned());
    out.push("list".to_owned());
    out.push("--json".to_owned());
    out.push("status,conclusion".to_owned());
    out.push("-L".to_owned());
    out.push("1".to_owned());
    out.push("--branch".to_owned());
    out.push(default_branch.to_owned());
    out.push("-R".to_owned());
    out.push(owner_repo.to_owned());
    out
}

/// The outcome of a run, from its state and, once it is completed, its conclusion.
/// What was cancelled or skipped is not urgent, and counts as a success.
pub open spec fn outcome(status: Seq<char>, conclusion: Seq<char>) -> Option<Seq<char>> {
    if status == "completed"@ {
        if conclusion == "failure"@ || conclusion == "startup_failure"@ || conclusion
            == "timed_out"@ {
            Some("failure"@)
        } else {
            Some("success"@)
        }
    } else if status == "in_progress"@ {
        Some("running"@)
    } else if status == "queued"@ || status == "pending"@ || status == "requested"@ || status
        == "waiting"@ {
        Some("pending"@)
    } else {
        None
    }
}

/// The outcome of a run.
pub fn run_outcome(status: &str, conclusion: &str) -> (out: Option<&'static str>)
    ensures
        opt_str(out) == outcome(status@, conclusion@),
{
    if str_eq(status, "completed") {
        if str_eq(conclusion, "failure") || str_eq(conclusion, "startup_failure") || str_eq(
            conclusion,
            "timed_out",
        ) {
            Some("failure")
        } else {
            Some("success")
        }
    } else if str_eq(status, "in_progress") {
        Some("running")
    } else if str_eq(status, "queued") || str_eq(status, "pending") || str_eq(status, "requested")
        || str_eq(status, "waiting") {
        Some("pending")
    } else {
        None
    }
}

/// The text of a member; an empty one where it has none.
pub open spec fn text_or_empty(t: Option<JsonTree>) -> Seq<char> {
    match text_in(t) {
        Some(s) => s,
        None => Seq::empty(),
    }
}

/// The outcome of the first run in a list of runs.
pub open spec fn first_outcome(runs: Option<JsonTree>) -> Option<Seq<char>> {
    match items_in(runs) {
        Some(items) => if items.len() == 0 {
            None
        } else {
            outcome(
                text_or_empty(member(items[0], "status"@)),
                text_or_empty(member(items[0], "conclusion"@)),
            )
        },
        None => None,
    }
}

/// A member's text; an empty one where it has none.
fn member_text(j: &Json, key: &str) -> (out: String)
    ensures
        out@ == text_or_empty(member(j@, key@)),
{
    match j.text_at(key) {
        Some(s) => s.clone(),
        None => {
            let out = String::new();
            assert(out@ =~= Seq::empty());
            out
        },
    }
}

/// The outcome of the first run in a list of runs.
pub fn latest_outcome(runs: &Json) -> (out: Option<String>)
    ensures
        opt_text(out) == first_outcome(Some(runs@)),
{
    match runs.as_items() {
        Some(items) => {
            if items.len() == 0 {
                return None;
            }
            assert(trees(items@)[0] == items@[0]@);
            let status = member_text(&items[0], "status");
            let conclusion = member_text(&items[0], "conclusion");
            match run_outcome(status.as_str(), conclusion.as_str()) {
                Some(word) => Some(word.to_owned()),
                None => None,
            }
        },
        None => None,
    }
}

/// The outcome of the latest run that the output of `gh run list` tells of.
pub fn ci_status_output(stdout: &[u8]) -> (out: Option<String>)
    ensures
        opt_text(out) == first_outcome(parsed(trimmed(lossy(stdout@)))),
{
    let text = command_text(stdout);
    match parse_json(text.as_str()) {
        Some(runs) => latest_outcome(&runs),
        None => None,
    }
}

/// How many open pull requests a repository has.
#[derive(Debug, Clone, Copy, Default)]
pub struct PrCounts {
    pub open: i64,
    pub draft: i64,
    pub awaiting_my_review: i64,
    pub mine_awaiting_review: i64,
}

/// The query for the pull requests and the issues of a repository.
pub const PR_QUERY: &'static str = "
        query($owner: String!, $name: String!) {
          repository(owner: $owner, name: $name) {
            issues(states: OPEN) { totalCount }
            pullRequests(first: 100, states: OPEN) {
              nodes {
                isDraft
                author { login }
                reviewRequests(first: 50) {
                  nodes {
                    requestedReviewer {
                      ... on User { login }
                    }
                  }
                }
              }
            }
          }
        }
    ";

/// The arguments of `gh` that print the pull requests and the issues of a
/// repository; `None` for what is not `OWNER/NAME`.
pub fn pr_args(owner_repo: &str) -> (out: Option<Vec<String>>)
    ensures
        match (out, cut_once(owner_repo@, '/')) {
            (Some(args), Some((owner, name))) => texts(args@) == seq![
                "api"@,
                "graphql"@,
                "-f"@,
                "query="@ + PR_QUERY@,
                "-F"@,
                "owner="@ + owner,
                "-F"@,
                "name="@ + name,
            ],
            (None, None) => true,
            _ => false,
        },
{
    let chars = chars_of(owner_repo);
    let (owner, name) = match split_once(chars.as_slice(), '/') {
        Some(sides) => sides,
        None => {
            return None;
        },
    };
    let mut query = "query=".to_owned();
    query.append(PR_QUERY);
    let mut owner_arg = "owner=".to_owned();
    owner_arg.append(string_of(owner).as_str());
    let mut name_arg = "name=".to_owned();
    name_arg.append(string_of(name).as_str());
    let mut args: Vec<String> = Vec::new();
    args.push("api".to_owned());
    args.push("graphql".to_owned());
    args.push("-f".to_owned());
    args.push(query);
    args.push("-F".to_owned());
    args.push(owner_arg);
    args.push("-F".to_owned());
    args.push(name_arg);
    Some(args)
}

/// The repository that an answer is about.
pub open spec fn repository(body: JsonTree) -> Option<JsonTree> {
    member_of(member(body, "data"@), "repository"@)
}

/// The pull requests that an answer lists.
pub open spec fn pull_requests(body: JsonTree) -> Seq<JsonTree> {
    match items_in(member_of(member_of(repository(body), "pullRequests"@), "nodes"@)) {
        Some(items) => items,
        None => Seq::empty(),
    }
}

/// How many issues an answer says are open.
pub open spec fn issue_total(body: JsonTree) -> i64 {
    match int_in(member_of(member_of(repository(body), "issues"@), "totalCount"@)) {
        Some(n) => n,
        None => 0,
    }
}

/// Whether a pull request is a draft.
pub open spec fn is_draft(pr: JsonTree) -> bool {
    member(pr, "isDraft"@) == Some(JsonTree::Bool(true))
}

/// Who wrote a pull request.
pub open spec fn author(pr: JsonTree) -> Seq<char> {
    text_or_empty(member_of(member(pr, "author"@), "login"@))
}

/// The logins that are asked for a review of a pull request.
pub open spec fn reviewers(pr: JsonTree) -> Seq<Seq<char>> {
    match items_in(member_of(member(pr, "reviewRequests"@), "nodes"@)) {
        Some(items) => gather(items, |r: JsonTree| reviewer(r)),
        None => Seq::empty(),
    }
}

/// The login that a review is asked of.
pub open spec fn reviewer(request: JsonTree) -> Option<Seq<char>> {
    text_in(member_of(member(request, "requestedReviewer"@), "login"@))
}

/// Whether a pull request waits for my review.
pub open spec fn awaits_me(pr: JsonTree, me: Seq<char>) -> bool {
    me.len() > 0 && reviewers(pr).contains(me)
}

/// Whether a pull request of mine waits for a review.
pub open spec fn mine_awaits(pr: JsonTree, me: Seq<char>) -> bool {
    me.len() > 0 && author(pr) == me && !is_draft(pr)
}

/// What the counts say of a list of pull requests.
pub open spec fn counts_of(counts: PrCounts, prs: Seq<JsonTree>, me: Seq<char>) -> bool {
    &&& counts.open == prs.len()
    &&& counts.draft == count_of(prs, |pr: JsonTree| is_draft(pr))
    &&& counts.awaiting_my_review == count_of(prs, |pr: JsonTree| awaits_me(pr, me))
    &&& counts.mine_awaiting_review == count_of(prs, |pr: JsonTree| mine_awaits(pr, me))
}

/// Whether a login is asked for a review of a pull request.
fn asks(pr: &Json, me: &str) -> (out: bool)
    ensures
        out == reviewers(pr@).contains(me@),
{
    let requests = match pr.get("reviewRequests") {
        Some(r) => r,
        None => {
            return false;
        },
    };
    let nodes = match requests.items_at("nodes") {
        Some(nodes) => nodes,
        None => {
            return false;
        },
    };
    let ghost all = trees(nodes@);
    let ghost f = |r: JsonTree| reviewer(r);
    let mut i: usize = 0;
    assert(gather(all.take(0), f) =~= Seq::empty());
    assert(reviewers(pr@) == gather(all, f));
    while i < nodes.len()
        invariant
            i <= nodes@.len(),
            all == trees(nodes@),
            f == (|r: JsonTree| reviewer(r)),
            reviewers(pr@) == gather(all, f),
            !gather(all.take(i as int), f).contains(me@),
        decreases nodes@.len() - i,
    {
        let ghost before = gather(all.take(i as int), f);
        proof {
            assert(all[i as int] == nodes@[i as int]@);
            assert(all.take(i + 1) =~= all.take(i as int).push(all[i as int]));
        }
        match nodes[i].get("requestedReviewer") {
            Some(who) => match who.text_at("login") {
                Some(login) => {
                    let ghost now = gather(all.take(i + 1), f);
                    assert(now == before.push(login@));
                    if str_eq(login.as_str(), me) {
                        proof {
                            assert(now[before.len() as int] == me@);
                            lemma_gather_has(all, i + 1, f, me@);
                        }
                        return true;
                    }
                    assert forall|k: int| 0 <= k < now.len() implies now[k] != me@ by {
                        if k < before.len() {
                            assert(before[k] == now[k]);
                            assert(before.contains(before[k]));
                        }
                    }
                },
                None => {},
            },
            None => {},
        }
        i = i + 1;
    }
    assert(all.take(i as int) =~= all);
    false
}

/// What the start of a list yields, the list yields.
proof fn lemma_gather_has<A, B>(s: Seq<A>, n: int, f: spec_fn(A) -> Option<B>, x: B)
    requires
        0 <= n <= s.len(),
        gather(s.take(n), f).contains(x),
    ensures
        gather(s, f).contains(x),
    decreases s.len() - n,
{
    if n == s.len() {
        assert(s.take(n) =~= s);
    } else {
        let now = gather(s.take(n), f);
        assert(s.take(n + 1) =~= s.take(n).push(s[n]));
        let k = choose|k: int| 0 <= k < now.len() && now[k] == x;
        assert(gather(s.take(n + 1), f)[k] == x);
        lemma_gather_has(s, n + 1, f, x);
    }
}

/// A count of a list is at most its length.
proof fn lemma_count_len<A>(s: Seq<A>, p: spec_fn(A) -> bool)
    ensures
        count_of(s, p) <= s.len(),
    decreases s.len(),
{
    if s.len() > 0 {
        lemma_count_len(s.drop_last(), p);
    }
}

/// Counts a list of pull requests.
fn count_prs(nodes: &Vec<Json>, my_login: &str) -> (counts: PrCounts)
    requires
        nodes@.len() <= i64::MAX,
    ensures
        counts_of(counts, trees(nodes@), my_login@),
{
    let ghost all = trees(nodes@);
    let ghost me = my_login@;
    let known = !str_eq(my_login, "");
    let mut counts = PrCounts {
        open: 0,
        draft: 0,
        awaiting_my_review: 0,
        mine_awaiting_review: 0,
    };
    let mut i: usize = 0;
    proof {
        reveal_strlit("");
        assert(""@ =~= Seq::<char>::empty());
        assert(known == (me.len() > 0)) by {
            if me.len() == 0 {
                assert(me =~= Seq::<char>::empty());
            }
        }
        assert(all.take(0) =~= Seq::empty());
    }
    while i < nodes.len()
        invariant
            i <= nodes@.len() <= i64::MAX,
            all == trees(nodes@),
            me == my_login@,
            known == (me.len() > 0),
            counts_of(counts, all.take(i as int), me),
        decreases nodes@.len() - i,
    {
        let pr = &nodes[i];
        proof {
            assert(all[i as int] == pr@);
            assert(all.take(i + 1) =~= all.take(i as int).push(pr@));
            lemma_count_len(all.take(i as int), |pr: JsonTree| is_draft(pr));
            lemma_count_len(all.take(i as int), |pr: JsonTree| awaits_me(pr, me));
            lemma_count_len(all.take(i as int), |pr: JsonTree| mine_awaits(pr, me));
        }
        counts.open = counts.open + 1;
        let draft = pr.true_at("isDraft");
        if draft {
            counts.draft = counts.draft + 1;
        }
        let author_login = match pr.get("author") {
            Some(who) => member_text(who, "login"),
            None => {
                let none = String::new();
                assert(none@ =~= Seq::empty());
                none
            },
        };
        assert(author_login@ == author(pr@));
        if known && asks(pr, my_login) {
            counts.awaiting_my_review = counts.awaiting_my_review + 1;
        }
        if known && str_eq(author_login.as_str(), my_login) && !draft {
            counts.mine_awaiting_review = counts.mine_awaiting_review + 1;
        }
        i = i + 1;
    }
    assert(all.take(i as int) =~= all);
    counts
}

/// The counts of pull requests and the number of issues that an answer tells of;
/// `None` where it names no repository. Without a login of one's own nothing awaits
/// one's review, nor does anything of one's own.
pub fn pr_and_issue_counts(body: &Json, my_login: &str) -> (out: Option<(PrCounts, i64)>)
    requires
        pull_requests(body@).len() <= i64::MAX,
    ensures
        match out {
            Some((counts, issues)) => repository(body@) is Some && counts_of(
                counts,
                pull_requests(body@),
                my_login@,
            ) && issues == issue_total(body@),
            None => repository(body@) is None,
        },
{
    let data = match body.get("data") {
        Some(data) => data,
        None => {
            return None;
        },
    };
    let repo = match data.get("repository") {
        Some(repo) => repo,
        None => {
            return None;
        },
    };
    let issues: i64 = match repo.get("issues") {
        Some(i) => match i.int_at("totalCount") {
            Some(n) => n,
            None => 0,
        },
        None => 0,
    };
    let nothing: Vec<Json> = Vec::new();
    assert(trees(nothing@) =~= Seq::empty());
    let prs = match repo.get("pullRequests") {
        Some(p) => match p.items_at("nodes") {
            Some(nodes) => nodes,
            None => &nothing,
        },
        None => &nothing,
    };
    assert(trees(prs@) == pull_requests(body@));
    assert(trees(prs@).len() == prs@.len());
    Some((count_prs(prs, my_login), issues))
}

/// Whether the pull requests of an answer can be counted in 64 bits.
fn is_countable(body: &Json) -> (out: bool)
    ensures
        out == (pull_requests(body@).len() <= i64::MAX),
{
    let data = match body.get("data") {
        Some(data) => data,
        None => {
            return true;
        },
    };
    let repo = match data.get("repository") {
        Some(repo) => repo,
        None => {
            return true;
        },
    };
    match repo.get("pullRequests") {
        Some(p) => match p.items_at("nodes") {
            Some(nodes) => {
                assert(trees(nodes@) == pull_requests(body@));
                nodes.len() as u64 <= i64::MAX as u64
            },
            None => true,
        },
        None => true,
    }
}

/// Whether an answer names a repository whose pull requests can be counted.
pub open spec fn answered(body: Option<JsonTree>) -> bool {
    match body {
        Some(b) => repository(b) is Some && pull_requests(b).len() <= i64::MAX,
        None => false,
    }
}

/// The counts of pull requests and the number of issues that the output of `gh api
/// graphql` tells of; `None` where it is no JSON, names no repository, or lists
/// more than 64 bits can count.
pub fn pr_and_issue_output(stdout: &[u8], my_login: &str) -> (out: Option<(PrCounts, i64)>)
    ensures
        match out {
            Some((counts, issues)) => {
                let body = parsed(trimmed(lossy(stdout@)));
                &&& answered(body)
                &&& counts_of(counts, pull_requests(body->0), my_login@)
                &&& issues == issue_total(body->0)
            },
            None => !answered(parsed(trimmed(lossy(stdout@)))),
        },
{
    let text = command_text(stdout);
    match parse_json(text.as_str()) {
        Some(body) => if is_countable(&body) {
            pr_and_issue_counts(&body, my_login)
        } else {
            None
        },
        None => None,
    }
}

/// Without a login of one's own nothing awaits one's review, nor does anything of
/// one's own.
pub proof fn law_nobody_awaits(counts: PrCounts, prs: Seq<JsonTree>)
    requires
        counts_of(counts, prs, Seq::empty()),
    ensures
        counts.awaiting_my_review == 0,
        counts.mine_awaiting_review == 0,
{
    lemma_nobody(prs);
}

proof fn lemma_nobody(prs: Seq<JsonTree>)
    ensures
        count_of(prs, |pr: JsonTree| awaits_me(pr, Seq::empty())) == 0,
        count_of(prs, |pr: JsonTree| mine_awaits(pr, Seq::empty())) == 0,
    decreases prs.len(),
{
    if prs.len() > 0 {
        lemma_nobody(prs.drop_last());
    }
}

/// None of the counts exceeds the number of open pull requests, and drafts and
/// those of one's own that wait are never the same.
pub proof fn law_counts_within_open(counts: PrCounts, prs: Seq<JsonTree>, me: Seq<char>)
    requires
        counts_of(counts, prs, me),
    ensures
        counts.awaiting_my_review <= counts.open,
        counts.draft + counts.mine_awaiting_review <= counts.open,
{
    lemma_count_len(prs, |pr: JsonTree| awaits_me(pr, me));
    lemma_drafts_are_others(prs, me);
}

proof fn lemma_drafts_are_others(prs: Seq<JsonTree>, me: Seq<char>)
    ensures
        count_of(prs, |pr: JsonTree| is_draft(pr)) + count_of(
            prs,
            |pr: JsonTree| mine_awaits(pr, me),
        ) <= prs.len(),
    decreases prs.len(),
{
    if prs.len() > 0 {
        lemma_drafts_are_others(prs.drop_last(), me);
    }
}

// ---------------------------------------------------------------------------
// Laws
// ---------------------------------------------------------------------------

/// The decimal form of an integer is made of digits, and a minus sign at most.
proof fn lemma_decimal_chars(n: int, c: char)
    requires
        !('0' <= c <= '9') && c != '-',
    ensures
        !decimal_int(n).contains(c),
{
    let m: nat = if n < 0 {
        (-n) as nat
    } else {
        n as nat
    };
    law_naturals_are_read_back(m);
    let d = decimal(m);
    assert forall|i: int| 0 <= i < decimal_int(n).len() implies decimal_int(n)[i] != c by {
        if n < 0 {
            if i > 0 {
                assert(decimal_int(n)[i] == d[i - 1]);
                assert(digit(d[i - 1]));
            }
        } else {
            assert(digit(d[i]));
        }
    }
}

/// A line of the log with the hash, the time, the name, the email and the subject of a
/// commit, a NUL between each, is read as that commit. The subject may hold anything.
pub proof fn law_log_lines_are_read(c: CommitView)
    requires
        !c.sha.contains('\0'),
        !c.author_name.contains('\0'),
        !c.author_email.contains('\0'),
    ensures
        logged(
            c.sha + seq!['\0'] + (decimal_int(c.timestamp as int) + seq!['\0'] + (c.author_name + seq![
                '\0',
            ] + (c.author_email + seq!['\0'] + c.subject))),
        ) == Some(c),
{
    let time = decimal_int(c.timestamp as int);
    let d = c.subject;
    let e = c.author_email + seq!['\0'] + d;
    let n = c.author_name + seq!['\0'] + e;
    let t = time + seq!['\0'] + n;
    lemma_decimal_chars(c.timestamp as int, '\0');
    law_cut_parts(c.sha, '\0', t, 5);
    law_cut_parts(time, '\0', n, 4);
    law_cut_parts(c.author_name, '\0', e, 3);
    law_cut_parts(c.author_email, '\0', d, 2);
    assert(cut_at_most(d, '\0', 1) =~= seq![d]);
    let parts = cut_at_most(c.sha + seq!['\0'] + t, '\0', 5);
    assert(parts =~= seq![c.sha, time, c.author_name, c.author_email, d]);
    law_integers_are_read_back(c.timestamp);
}

/// A line of the log that is read as a commit has its five parts, a NUL between each.
pub proof fn law_only_log_lines_are_read(line: Seq<char>)
    requires
        logged(line) is Some,
    ensures
        ({
            let c = logged(line).unwrap();
            exists|time: Seq<char>|
                line == #[trigger] (c.sha + seq!['\0'] + (time + seq!['\0'] + (c.author_name + seq![
                    '\0',
                ] + (c.author_email + seq!['\0'] + c.subject)))) && i64_of(time) == Some(c.timestamp)
        }),
{
    let c = logged(line).unwrap();
    let parts = cut_at_most(line, '\0', 5);
    let r1 = lemma_cut_step(line, '\0', 5);
    let r2 = lemma_cut_step(r1, '\0', 4);
    let r3 = lemma_cut_step(r2, '\0', 3);
    let r4 = lemma_cut_step(r3, '\0', 2);
    assert(cut_at_most(r4, '\0', 1) =~= seq![r4]);
    assert(line == c.sha + seq!['\0'] + (parts[1] + seq!['\0'] + (c.author_name + seq!['\0'] + (
    c.author_email + seq!['\0'] + c.subject))));
}

/// A text that is cut into more parts than one is its first part, the character, and the
/// rest.
proof fn lemma_cut_step(s: Seq<char>, c: char, limit: nat) -> (rest: Seq<char>)
    requires
        limit > 1,
        cut_at_most(s, c, limit).len() > 1,
    ensures
        s == cut_at_most(s, c, limit)[0] + seq![c] + rest,
        cut_at_most(s, c, limit) == seq![cut_at_most(s, c, limit)[0]] + cut_at_most(
            rest,
            c,
            (limit - 1) as nat,
        ),
{
    let k = index_of(s, c) as int;
    lemma_index_bound(s, c);
    let rest = s.skip(k + 1);
    assert(s =~= s.take(k) + seq![c] + rest);
    rest
}

proof fn lemma_index_bound(s: Seq<char>, c: char)
    ensures
        index_of(s, c) <= s.len(),
        index_of(s, c) < s.len() ==> s[index_of(s, c) as int] == c,
    decreases s.len(),
{
    if s.len() > 0 && s[0] != c {
        lemma_index_bound(s.skip(1), c);
    }
}

/// Every line of a log is read by itself: what the first line tells comes before what the
/// rest of the log tells.
pub proof fn law_logs_are_read_line_by_line(line: Seq<char>, rest: Seq<char>)
    requires
        !line.contains('\n'),
        line.len() == 0 || line.last() != '\r',
    ensures
        log_of(line + seq!['\n'] + rest) == (match logged(line) {
            Some(c) => seq![c],
            None => Seq::empty(),
        }) + log_of(rest),
        log_of(Seq::empty()) == Seq::<CommitView>::empty(),
{
    law_lines_end_at_newlines(line, rest);
    lemma_gather_first(line, lines_of(rest), |l: Seq<char>| logged(l));
}

/// What is gathered from a list is what its first item yields, and what the rest yields.
proof fn lemma_gather_first<A, B>(x: A, rest: Seq<A>, f: spec_fn(A) -> Option<B>)
    ensures
        gather(seq![x] + rest, f) == (match f(x) {
            Some(y) => seq![y],
            None => Seq::empty(),
        }) + gather(rest, f),
    decreases rest.len(),
{
    let head: Seq<B> = match f(x) {
        Some(y) => seq![y],
        None => Seq::empty(),
    };
    if rest.len() == 0 {
        assert(seq![x] + rest =~= Seq::<A>::empty().push(x));
        assert(gather(seq![x] + rest, f) =~= head + gather(rest, f));
    } else {
        let front = rest.drop_last();
        lemma_gather_first(x, front, f);
        assert(seq![x] + rest =~= (seq![x] + front).push(rest.last()));
        assert(rest =~= front.push(rest.last()));
        assert(gather(seq![x] + rest, f) =~= head + gather(rest, f));
    }
}

/// A row of a file, with the lines added, the lines deleted and the path, a tab between
/// each, is read as these, for every count and every path; a binary file has no row.
pub proof fn law_rows_are_read(additions: i64, deletions: i64, path: Seq<char>)
    ensures
        numbers(
            decimal_int(additions as int) + seq!['\t'] + (decimal_int(deletions as int) + seq!['\t']
                + path),
        ) == Some((additions, deletions, path)),
        numbers(seq!['-', '\t'] + (seq!['-', '\t'] + path)) is None,
        line_churn(
            decimal_int(additions as int) + seq!['\t'] + (decimal_int(deletions as int) + seq!['\t']
                + path),
        ) == additions + deletions,
{
    reveal_strlit("H|");
    let (a, d) = (decimal_int(additions as int), decimal_int(deletions as int));
    let rest = d + seq!['\t'] + path;
    let line = a + seq!['\t'] + rest;
    lemma_decimal_chars(additions as int, '\t');
    lemma_decimal_chars(deletions as int, '\t');
    law_cut_parts(a, '\t', rest, 3);
    law_cut_parts(d, '\t', path, 2);
    assert(cut_at_most(path, '\t', 1) =~= seq![path]);
    assert(cut_at_most(line, '\t', 3) =~= seq![a, d, path]);
    law_integers_are_read_back(additions);
    law_integers_are_read_back(deletions);
    lemma_decimal_chars(additions as int, 'H');
    law_naturals_are_read_back(
        if additions < 0 {
            (-additions) as nat
        } else {
            additions as nat
        },
    );
    assert(a.len() > 0);
    assert(a.contains(a[0]));
    assert(line[0] == a[0]);
    lemma_other_start(line, "H|"@);
    let dash = seq!['-'];
    let binary = seq!['-', '\t'] + (seq!['-', '\t'] + path);
    assert(binary =~= dash + seq!['\t'] + (dash + seq!['\t'] + path));
    assert(!dash.contains('\t')) by {
        assert(forall|i: int| 0 <= i < dash.len() ==> dash[i] == '-');
    }
    law_cut_parts(dash, '\t', dash + seq!['\t'] + path, 3);
    law_cut_parts(dash, '\t', path, 2);
    assert(cut_at_most(binary, '\t', 3) =~= seq![dash, dash, path]);
    assert(dash.skip(1) =~= Seq::empty());
    assert(i64_of(dash) is None);
}

/// A text with another first character does not have a prefix.
proof fn lemma_other_start(s: Seq<char>, p: Seq<char>)
    requires
        p.len() > 0,
        s.len() == 0 || s[0] != p[0],
    ensures
        !has_prefix(s, p),
        after_prefix(s, p) is None,
{
    if has_prefix(s, p) {
        assert(s.take(p.len() as int)[0] == s[0]);
    }
}

/// A header with the hash, the time and the email of a commit, a bar before each, is read as
/// that commit.
pub proof fn law_headers_are_read(h: HeadView)
    requires
        !h.sha.contains('|'),
    ensures
        header(
            "H|"@ + (h.sha + seq!['|'] + (decimal_int(h.timestamp as int) + seq!['|']
                + h.author_email)),
        ) == Some(h),
{
    let time = decimal_int(h.timestamp as int);
    let rest = time + seq!['|'] + h.author_email;
    lemma_decimal_chars(h.timestamp as int, '|');
    law_cut_parts(h.sha, '|', rest, 3);
    law_cut_parts(time, '|', h.author_email, 2);
    assert(cut_at_most(h.author_email, '|', 1) =~= seq![h.author_email]);
    assert(cut_at_most(h.sha + seq!['|'] + rest, '|', 3) =~= seq![h.sha, time, h.author_email]);
    law_integers_are_read_back(h.timestamp);
    law_ends_of_texts("H|"@, h.sha + seq!['|'] + rest);
}

/// A row belongs to the commit of the last header before it, however many rows stand
/// between, and neither a header nor a line that is no row is a change.
pub proof fn law_rows_belong_to_their_commit(
    before: Seq<Seq<char>>,
    head: Seq<char>,
    rows: Seq<Seq<char>>,
    row: Seq<char>,
)
    requires
        header(head) is Some,
        forall|i: int| 0 <= i < rows.len() ==> header(#[trigger] rows[i]) is None,
    ensures
        numbers(row) matches Some((additions, deletions, path)) ==> changes(
            (before.push(head) + rows).push(row),
        ) == changes(before.push(head) + rows).push(
            (ChangeView { head: header(head).unwrap(), file_path: path, additions, deletions }),
        ),
        numbers(row) is None ==> changes((before.push(head) + rows).push(row)) == changes(
            before.push(head) + rows,
        ),
        changes(before.push(head)) == changes(before),
        changes(Seq::empty()) == Seq::<ChangeView>::empty(),
{
    lemma_header_stays(before, head, rows);
    let all = before.push(head) + rows;
    assert(all.push(row).drop_last() =~= all);
    assert(before.push(head).drop_last() =~= before);
    assert(numbers(head) is None);
}

proof fn lemma_header_stays(before: Seq<Seq<char>>, head: Seq<char>, rows: Seq<Seq<char>>)
    requires
        header(head) is Some,
        forall|i: int| 0 <= i < rows.len() ==> header(#[trigger] rows[i]) is None,
    ensures
        last_header(before.push(head) + rows) == header(head).unwrap(),
    decreases rows.len(),
{
    let all = before.push(head) + rows;
    if rows.len() == 0 {
        assert(all =~= before.push(head));
    } else {
        let rest = rows.drop_last();
        assert forall|i: int| 0 <= i < rest.len() implies header(#[trigger] rest[i]) is None by {
            assert(rest[i] == rows[i]);
        }
        lemma_header_stays(before, head, rest);
        assert(all.drop_last() =~= before.push(head) + rest);
        assert(all.last() == rows[rows.len() - 1]);
    }
}

/// The default branch is what stands behind `refs/remotes/origin/`.
pub proof fn law_branches_stand_behind_their_remote(branch: Seq<char>, text: Seq<char>)
    requires
        branch.len() > 0,
        !white(branch.last()),
    ensures
        branch_of("refs/remotes/origin/"@ + branch + seq!['\n']) == Some(branch),
        branch_of(text) matches Some(b) ==> trimmed(text) == "refs/remotes/origin/"@ + b,
{
    reveal_strlit("refs/remotes/origin/");
    let p = "refs/remotes/origin/"@;
    let inner = p + branch;
    assert(inner[0] == 'r');
    assert(inner.last() == branch.last());
    law_trimmed_is_the_inside(Seq::empty(), inner, seq!['\n']);
    assert(Seq::<char>::empty() + inner + seq!['\n'] =~= p + branch + seq!['\n']);
    law_ends_of_texts(p, branch);
    law_ends_of_texts(p, Seq::empty());
}

/// The distances to the upstream are two integers with white space between: how far behind
/// it is, and how far ahead.
pub proof fn law_distances_are_read(behind: i64, ahead: i64)
    ensures
        distances(decimal_int(behind as int) + seq!['\t'] + decimal_int(ahead as int)) == Some(
            (behind, ahead),
        ),
{
    let (b, a) = (decimal_int(behind as int), decimal_int(ahead as int));
    lemma_decimal_words(behind as int);
    lemma_decimal_words(ahead as int);
    law_words_end_at_white_space(b, '\t', a);
    law_words_end_at_white_space(a, '\t', Seq::empty());
    assert(words_of(b + seq!['\t'] + a) =~= seq![b, a]);
    law_integers_are_read_back(behind);
    law_integers_are_read_back(ahead);
}

proof fn lemma_decimal_words(n: int)
    ensures
        decimal_int(n).len() > 0,
        forall|i: int| 0 <= i < decimal_int(n).len() ==> !white(#[trigger] decimal_int(n)[i]),
{
    let m: nat = if n < 0 {
        (-n) as nat
    } else {
        n as nat
    };
    law_naturals_are_read_back(m);
    let d = decimal(m);
    assert forall|i: int| 0 <= i < decimal_int(n).len() implies !white(
        #[trigger] decimal_int(n)[i],
    ) by {
        if n < 0 {
            if i > 0 {
                assert(digit(d[i - 1]));
            }
        } else {
            assert(digit(d[i]));
        }
    }
}

/// Every line that is not empty counts as one.
pub proof fn law_full_lines_count(line: Seq<char>, rest: Seq<char>)
    requires
        !line.contains('\n'),
        line.len() == 0 || line.last() != '\r',
    ensures
        full_lines(line + seq!['\n'] + rest) == full_lines(rest) + (if line.len() > 0 {
            1int
        } else {
            0
        }),
        line.len() > 0 ==> full_lines(line) == 1,
        full_lines(Seq::empty()) == 0,
{
    law_lines_end_at_newlines(line, rest);
    let p = |l: Seq<char>| l.len() > 0;
    lemma_count_first(line, lines_of(rest), p);
    if line.len() > 0 {
        assert(seq![line] =~= Seq::<Seq<char>>::empty().push(line));
    }
}

proof fn lemma_count_first<A>(x: A, rest: Seq<A>, p: spec_fn(A) -> bool)
    ensures
        count_of(seq![x] + rest, p) == count_of(rest, p) + (if p(x) {
            1nat
        } else {
            0
        }),
    decreases rest.len(),
{
    if rest.len() == 0 {
        assert(seq![x] + rest =~= Seq::<A>::empty().push(x));
    } else {
        let front = rest.drop_last();
        lemma_count_first(x, front, p);
        assert(seq![x] + rest =~= (seq![x] + front).push(rest.last()));
        assert(rest =~= front.push(rest.last()));
    }
}

/// An operation is in progress exactly where one of its marks is there: two of a rebase, and
/// one each of a merge, a cherry-pick, a revert and a bisection. Of several the first in that
/// order counts.
pub proof fn law_marks_tell_operations(present: Seq<bool>, k: int)
    requires
        present.len() == 6,
        0 <= k <= 6,
        k < 6 ==> present[k],
        forall|i: int| 0 <= i < k ==> !#[trigger] present[i],
    ensures
        k == 0 || k == 1 ==> op_from(present, 0) == Some("rebase"@),
        k == 2 ==> op_from(present, 0) == Some("merge"@),
        k == 3 ==> op_from(present, 0) == Some("cherry-pick"@),
        k == 4 ==> op_from(present, 0) == Some("revert"@),
        k == 5 ==> op_from(present, 0) == Some("bisect"@),
        k == 6 ==> op_from(present, 0) is None,
        markers().len() == 6,
        markers()[0].1 == "rebase-merge"@ && markers()[1].1 == "rebase-apply"@ && markers()[2].1
            == "MERGE_HEAD"@ && markers()[3].1 == "CHERRY_PICK_HEAD"@ && markers()[4].1
            == "REVERT_HEAD"@ && markers()[5].1 == "BISECT_LOG"@,
{
    reveal_with_fuel(op_from, 7);
}

/// Whether a path of a remote has nothing to drop at its end.
pub open spec fn ends_plainly(path: Seq<char>) -> bool {
    path.len() > 0 && path.last() != '/' && !white(path.last()) && !has_suffix(path, ".git"@)
}

/// A URL whose path ends plainly is bare.
proof fn lemma_plain_is_bare(start: Seq<char>, path: Seq<char>)
    requires
        ends_plainly(path),
        start.len() > 0,
        start.last() == '/',
    ensures
        bare(start + path) == start + path,
{
    reveal_strlit(".git");
    let s = start + path;
    let g = ".git"@;
    assert(s.last() == path.last());
    if has_suffix(s, g) {
        let tail = s.skip(s.len() - 4);
        assert(tail == g);
        if path.len() >= 4 {
            assert(path.skip(path.len() - 4) =~= tail);
        } else {
            let i = 4 - path.len() - 1;
            assert(tail[i] == s[s.len() - 4 + i]);
            assert(s[s.len() - path.len() - 1] == start.last());
            assert(tail[i] == '/');
        }
    }
}

/// A text that neither begins nor ends in white space is what is left of it, trimmed.
proof fn lemma_trim_none(s: Seq<char>)
    requires
        s.len() > 0,
        !white(s[0]),
        !white(s.last()),
    ensures
        trimmed(s) == s,
{
    law_trimmed_is_the_inside(Seq::empty(), s, Seq::empty());
    assert(Seq::<char>::empty() + s + Seq::<char>::empty() =~= s);
}

/// `git@host:path` is the page `https://host/path`.
pub proof fn law_shorthand_is_browsable(host: Seq<char>, path: Seq<char>)
    requires
        !host.contains(':'),
        ends_plainly(path),
    ensures
        browsable("git@"@ + host + seq![':'] + path) == Some("https://"@ + host + seq!['/'] + path),
{
    reveal_strlit("git@");
    reveal_strlit("https://");
    reveal_strlit("/");
    let raw = "git@"@ + host + seq![':'] + path;
    let rest = host + seq![':'] + path;
    assert(raw =~= "git@"@ + rest);
    assert(raw[0] == 'g');
    assert(raw.last() == path.last());
    lemma_trim_none(raw);
    law_ends_of_texts("git@"@, rest);
    law_cut_once_at_the_first(host, ':', path);
    let start = "https://"@ + host + seq!['/'];
    assert("https://"@ + host + "/"@ + path =~= start + path);
    lemma_plain_is_bare(start, path);
}

/// Whether a text can be the name of a user, a host or a port.
pub open spec fn is_name(s: Seq<char>) -> bool {
    !s.contains('@') && !s.contains(':') && !s.contains('/')
}

proof fn lemma_host(host: Seq<char>, user: Seq<char>, port: Seq<char>)
    requires
        is_name(host),
        is_name(user),
        is_name(port),
    ensures
        host_of(host) == host,
        host_of(user + seq!['@'] + host) == host,
        host_of(host + seq![':'] + port) == host,
        host_of(user + seq!['@'] + (host + seq![':'] + port)) == host,
{
    law_cut_parts(host, ':', port, 2);
    law_cut_once_at_the_first(host, '@', Seq::empty());
    law_cut_once_at_the_first(user, '@', host);
    law_cut_once_at_the_first(user, '@', host + seq![':'] + port);
    let both = host + seq![':'] + port;
    assert(!both.contains('@')) by {
        assert forall|i: int| 0 <= i < both.len() implies both[i] != '@' by {
            if i < host.len() {
                assert(host.contains(host[i]));
            } else if i > host.len() {
                assert(port.contains(port[i - host.len() - 1]));
                assert(both[i] == port[i - host.len() - 1]);
            }
        }
    }
    law_cut_once_at_the_first(both, '@', Seq::empty());
}

#[verifier::spinoff_prover]
proof fn lemma_ssh(authority: Seq<char>, path: Seq<char>)
    requires
        !authority.contains('/'),
        ends_plainly(path),
    ensures
        browsable("ssh://"@ + authority + seq!['/'] + path) == Some(
            "https://"@ + host_of(authority) + seq!['/'] + path,
        ),
{
    reveal_strlit("git@");
    reveal_strlit("ssh://");
    reveal_strlit("https://");
    reveal_strlit("/");
    let raw = "ssh://"@ + authority + seq!['/'] + path;
    let rest = authority + seq!['/'] + path;
    assert(raw =~= "ssh://"@ + rest);
    assert(raw[0] == 's');
    assert(raw.last() == path.last());
    lemma_trim_none(raw);
    lemma_other_start(raw, "git@"@);
    law_ends_of_texts("ssh://"@, rest);
    law_cut_once_at_the_first(authority, '/', path);
    let start = "https://"@ + host_of(authority) + seq!['/'];
    assert("https://"@ + host_of(authority) + "/"@ + path =~= start + path);
    lemma_plain_is_bare(start, path);
}

proof fn lemma_no_slash(a: Seq<char>, c: char, b: Seq<char>)
    requires
        !a.contains('/'),
        !b.contains('/'),
        c != '/',
    ensures
        !(a + seq![c] + b).contains('/'),
{
    let s = a + seq![c] + b;
    assert forall|i: int| 0 <= i < s.len() implies s[i] != '/' by {
        if i < a.len() {
            assert(a.contains(a[i]));
        } else if i > a.len() {
            assert(s[i] == b[i - a.len() - 1]);
            assert(b.contains(b[i - a.len() - 1]));
        }
    }
}

/// `ssh://host/path` is the page `https://host/path`, with a user, a port or both named or
/// not, whatever the path holds.
pub proof fn law_ssh_is_browsable(
    user: Seq<char>,
    host: Seq<char>,
    port: Seq<char>,
    path: Seq<char>,
)
    requires
        is_name(user),
        is_name(host),
        is_name(port),
        ends_plainly(path),
    ensures
        ({
            let page = Some("https://"@ + host + seq!['/'] + path);
            &&& browsable("ssh://"@ + host + seq!['/'] + path) == page
            &&& browsable("ssh://"@ + (user + seq!['@'] + host) + seq!['/'] + path) == page
            &&& browsable("ssh://"@ + (host + seq![':'] + port) + seq!['/'] + path) == page
            &&& browsable(
                "ssh://"@ + (user + seq!['@'] + (host + seq![':'] + port)) + seq!['/'] + path,
            ) == page
        }),
{
    lemma_host(host, user, port);
    lemma_no_slash(user, '@', host);
    lemma_no_slash(host, ':', port);
    lemma_no_slash(user, '@', host + seq![':'] + port);
    lemma_ssh(host, path);
    lemma_ssh(user + seq!['@'] + host, path);
    lemma_ssh(host + seq![':'] + port, path);
    lemma_ssh(user + seq!['@'] + (host + seq![':'] + port), path);
}

/// A URL of the web is browsable by HTTPS, whichever of the two schemes it has.
pub proof fn law_web_urls_are_browsable(host: Seq<char>, path: Seq<char>)
    requires
        ends_plainly(path),
    ensures
        browsable("https://"@ + host + seq!['/'] + path) == Some(
            "https://"@ + host + seq!['/'] + path,
        ),
        browsable("http://"@ + host + seq!['/'] + path) == Some(
            "https://"@ + host + seq!['/'] + path,
        ),
{
    reveal_strlit("git@");
    reveal_strlit("ssh://");
    reveal_strlit("http://");
    reveal_strlit("https://");
    let rest = host + seq!['/'] + path;
    let start = "https://"@ + host + seq!['/'];
    assert(start + path =~= "https://"@ + rest);
    assert("https://"@ + host + seq!['/'] + path =~= start + path);
    lemma_plain_is_bare(start, path);
    let raw = "https://"@ + rest;
    assert(raw[0] == 'h' && raw.last() == path.last());
    lemma_trim_none(raw);
    lemma_other_start(raw, "git@"@);
    lemma_other_start(raw, "ssh://"@);
    law_ends_of_texts("https://"@, rest);
    assert(raw[4] == 's');
    if has_prefix(raw, "http://"@) {
        assert(raw.take(7)[4] == raw[4]);
        assert("http://"@[4] == ':');
    }
    let old = "http://"@ + rest;
    assert("http://"@ + host + seq!['/'] + path =~= old);
    assert(old[0] == 'h' && old.last() == path.last());
    lemma_trim_none(old);
    lemma_other_start(old, "git@"@);
    lemma_other_start(old, "ssh://"@);
    law_ends_of_texts("http://"@, rest);
}

/// A remote in any other form has no page.
pub proof fn law_other_remotes_have_no_page(raw: Seq<char>)
    requires
        !has_prefix(trimmed(raw), "git@"@),
        !has_prefix(trimmed(raw), "ssh://"@),
        !has_prefix(trimmed(raw), "http://"@),
        !has_prefix(trimmed(raw), "https://"@),
    ensures
        browsable(raw) is None,
{
}

/// A slash or `.git` at the end of a remote, and white space around it, make no difference to
/// its page.
pub proof fn law_endings_make_no_difference(raw: Seq<char>)
    requires
        browsable(raw) is Some,
        raw.len() > 0,
        !white(raw[0]),
        !white(raw.last()),
    ensures
        browsable(raw + seq!['/']) == browsable(raw),
        browsable(raw + ".git"@) == browsable(raw),
        browsable(raw + seq!['\n']) == browsable(raw),
        browsable(seq![' '] + raw) == browsable(raw),
{
    reveal_strlit(".git");
    lemma_trim_none(raw);
    lemma_trim_none(raw + seq!['/']);
    assert((raw + ".git"@).last() == 't');
    lemma_trim_none(raw + ".git"@);
    lemma_spelled_on(raw, seq!['/']);
    lemma_spelled_on(raw, ".git"@);
    let url = spelled_out(raw).unwrap();
    assert((url + seq!['/']).drop_last() =~= url);
    let more = url + ".git"@;
    assert(more.skip(more.len() - 4) =~= ".git"@);
    assert(more.take(more.len() - 4) =~= url);
    assert(more.last() == 't');
    law_trimmed_is_the_inside(Seq::empty(), raw, seq!['\n']);
    assert(Seq::<char>::empty() + raw + seq!['\n'] =~= raw + seq!['\n']);
    law_trimmed_is_the_inside(seq![' '], raw, Seq::empty());
    assert(seq![' '] + raw + Seq::<char>::empty() =~= seq![' '] + raw);
}

/// What follows a remote follows what it is spelled out to.
proof fn lemma_spelled_on(raw: Seq<char>, end: Seq<char>)
    requires
        spelled_out(raw) is Some,
    ensures
        spelled_out(raw + end) == Some(spelled_out(raw).unwrap() + end),
{
    reveal_strlit("git@");
    reveal_strlit("ssh://");
    reveal_strlit("http://");
    reveal_strlit("https://");
    let more = raw + end;
    if has_prefix(raw, "git@"@) {
        lemma_prefix_on(raw, end, "git@"@);
        let rest = after_prefix(raw, "git@"@).unwrap();
        lemma_cut_on(rest, ':', end);
        let (host, path) = cut_once(rest, ':').unwrap();
        assert("https://"@ + host + "/"@ + (path + end) =~= ("https://"@ + host + "/"@ + path) + end);
    } else if has_prefix(raw, "ssh://"@) {
        assert(raw[0] == raw.take(6)[0]);
        lemma_other_start(more, "git@"@);
        lemma_prefix_on(raw, end, "ssh://"@);
        let rest = after_prefix(raw, "ssh://"@).unwrap();
        lemma_cut_on(rest, '/', end);
        let (authority, path) = cut_once(rest, '/').unwrap();
        assert("https://"@ + host_of(authority) + "/"@ + (path + end) =~= ("https://"@ + host_of(
            authority,
        ) + "/"@ + path) + end);
    } else if has_prefix(raw, "http://"@) {
        assert(raw[0] == raw.take(7)[0]);
        lemma_other_start(more, "git@"@);
        lemma_other_start(more, "ssh://"@);
        lemma_prefix_on(raw, end, "http://"@);
        let rest = after_prefix(raw, "http://"@).unwrap();
        assert("https://"@ + (rest + end) =~= ("https://"@ + rest) + end);
    } else {
        assert(raw[0] == raw.take(8)[0]);
        assert(raw[4] == raw.take(8)[4]);
        lemma_other_start(more, "git@"@);
        lemma_other_start(more, "ssh://"@);
        if has_prefix(more, "http://"@) {
            assert(more.take(7)[4] == raw[4]);
        }
        lemma_prefix_on(raw, end, "https://"@);
    }
}

proof fn lemma_prefix_on(s: Seq<char>, end: Seq<char>, p: Seq<char>)
    requires
        has_prefix(s, p),
    ensures
        has_prefix(s + end, p),
        after_prefix(s + end, p) == Some(after_prefix(s, p).unwrap() + end),
{
    assert((s + end).take(p.len() as int) =~= s.take(p.len() as int));
    assert((s + end).skip(p.len() as int) =~= s.skip(p.len() as int) + end);
}

proof fn lemma_cut_on(s: Seq<char>, c: char, end: Seq<char>)
    requires
        cut_once(s, c) is Some,
    ensures
        cut_once(s + end, c) == Some((cut_once(s, c).unwrap().0, cut_once(s, c).unwrap().1 + end)),
{
    lemma_index_before(s, c);
    let k = index_of(s, c) as int;
    let (a, b) = (s.take(k), s.skip(k + 1));
    lemma_index_bound(s, c);
    assert(s =~= a + seq![c] + b);
    assert(!a.contains(c));
    law_cut_once_at_the_first(a, c, b + end);
    assert(s + end =~= a + seq![c] + (b + end));
}

proof fn lemma_index_before(s: Seq<char>, c: char)
    ensures
        forall|j: int| 0 <= j < index_of(s, c) && j < s.len() ==> s[j] != c,
    decreases s.len(),
{
    if s.len() > 0 && s[0] != c {
        let rest = s.skip(1);
        lemma_index_before(rest, c);
        assert forall|j: int| 0 <= j < index_of(s, c) && j < s.len() implies s[j] != c by {
            if j > 0 {
                assert(rest[j - 1] == s[j]);
            }
        }
    }
}

/// A repository on GitHub is known by its owner and its name, and by nothing more or less: a
/// slash at the end does not count, but a further part of the path does.
pub proof fn law_owner_and_name_are_found(owner: Seq<char>, name: Seq<char>, more: Seq<char>)
    requires
        owner.len() > 0,
        name.len() > 0,
        !owner.contains('/'),
        !name.contains('/'),
        more.len() > 0,
        !more.contains('/'),
    ensures
        owner_repo("https://github.com/"@ + (owner + seq!['/'] + name)) == Some(
            owner + seq!['/'] + name,
        ),
        owner_repo("https://github.com/"@ + (owner + seq!['/'] + name + seq!['/'])) == Some(
            owner + seq!['/'] + name,
        ),
        owner_repo("https://github.com/"@ + owner) is None,
        owner_repo("https://github.com/"@ + (owner + seq!['/'] + (name + seq!['/'] + more))) is None,
        forall|url: Seq<char>|
            !has_prefix(url, "https://github.com/"@) ==> #[trigger] owner_repo(url) is None,
{
    reveal_strlit("/");
    assert("/"@ =~= seq!['/']);
    let slug = owner + seq!['/'] + name;
    let p = "https://github.com/"@;
    law_ends_of_texts(p, slug);
    law_ends_of_texts(p, slug + seq!['/']);
    law_ends_of_texts(p, owner);
    law_ends_of_texts(p, owner + seq!['/'] + (name + seq!['/'] + more));
    lemma_last_is_no_slash(name);
    lemma_last_is_no_slash(owner);
    lemma_last_is_no_slash(more);
    assert(slug.last() == name.last());
    lemma_no_suffix(slug);
    lemma_no_suffix(owner);
    let long = owner + seq!['/'] + (name + seq!['/'] + more);
    assert(long.last() == more.last());
    lemma_no_suffix(long);
    let ended = slug + seq!['/'];
    assert(ended.skip(ended.len() - 1) =~= seq!['/']);
    assert(ended.take(ended.len() - 1) =~= slug);
    assert(without_suffixes(ended, "/"@) == without_suffixes(slug, "/"@));
    law_cut_parts(owner, '/', name, 2);
    law_cut_parts(name, '/', more, 2);
    law_cut_parts(more, '/', Seq::empty(), 2);
    law_cut_parts(owner, '/', name + seq!['/'] + more, 2);
    assert(cut_all(slug, '/') =~= seq![owner, name]);
    assert(cut_all(long, '/') =~= seq![owner, name, more]);
    assert(owner + "/"@ + name =~= slug);
}

proof fn lemma_last_is_no_slash(s: Seq<char>)
    requires
        s.len() > 0,
        !s.contains('/'),
    ensures
        s.last() != '/',
{
    assert(s.contains(s[s.len() - 1]));
}

proof fn lemma_no_suffix(s: Seq<char>)
    requires
        s.len() > 0,
        s.last() != '/',
    ensures
        without_suffixes(s, seq!['/']) == s,
{
    if has_suffix(s, seq!['/']) {
        assert(s.skip(s.len() - 1)[0] == s.last());
    }
}

/// Whatever owner and name are found, the URL is that of GitHub with them behind it.
pub proof fn law_found_owners_are_in_the_url(url: Seq<char>)
    requires
        owner_repo(url) is Some,
    ensures
        has_prefix(url, "https://github.com/"@ + owner_repo(url).unwrap()),
{
    reveal_strlit("/");
    let p = "https://github.com/"@;
    let rest = after_prefix(url, p).unwrap();
    lemma_without_suffixes(rest, "/"@);
    let kept = without_suffixes(rest, "/"@);
    let parts = cut_all(kept, '/');
    let tail = lemma_cut_step(kept, '/', kept.len() + 1);
    lemma_cut_whole(tail, kept.len());
    assert(kept == parts[0] + seq!['/'] + parts[1]);
    assert("/"@ =~= seq!['/']);
    let slug = parts[0] + "/"@ + parts[1];
    assert(slug =~= kept);
    law_ends_of_texts(p, rest);
    assert(url == p + rest);
    assert(url.take((p + slug).len() as int) =~= p + slug);
}

proof fn lemma_without_suffixes(s: Seq<char>, p: Seq<char>)
    ensures
        without_suffixes(s, p).len() <= s.len(),
        s.take(without_suffixes(s, p).len() as int) == without_suffixes(s, p),
    decreases s.len(),
{
    if p.len() > 0 && has_suffix(s, p) {
        let t = s.take(s.len() - p.len());
        lemma_without_suffixes(t, p);
        let n = without_suffixes(s, p).len() as int;
        assert(t.take(n) =~= s.take(n));
    } else {
        assert(s.take(s.len() as int) =~= s);
    }
}

proof fn lemma_cut_whole(s: Seq<char>, limit: nat)
    requires
        cut_at_most(s, '/', limit).len() == 1,
    ensures
        cut_at_most(s, '/', limit)[0] == s,
{
    let k = index_of(s, '/') as int;
    if limit > 1 && k < s.len() {
        assert(cut_at_most(s.skip(k + 1), '/', (limit - 1) as nat).len() >= 1);
    }
}

/// Whether a line of `git status` tells of a file: it has four bytes or more, and the third
/// of them ends a character.
pub open spec fn tells_of_a_file(line: Seq<char>) -> bool {
    byte_len(line) >= 4 && chars_in(line, 3) is Some
}

/// Every line that tells of a file is one dirty file, whatever its status: those that start
/// with two question marks are untracked, and all others are modified. The totals count them
/// all.
pub proof fn law_every_line_is_a_dirty_file(snap: WorktreeSnapshot, text: Seq<char>, cap: nat)
    requires
        snapshot_of(snap, text, cap),
    ensures
        snap.total_untracked + snap.total_modified == lines_of(text).filter(
            |l: Seq<char>| tells_of_a_file(l),
        ).len(),
        snap.total_untracked == lines_of(text).filter(
            |l: Seq<char>| tells_of_a_file(l) && l.len() >= 2 && l[0] == '?' && l[1] == '?',
        ).len(),
{
    let all = lines_of(text);
    let p = |l: Seq<char>| tells_of_a_file(l);
    let q = |l: Seq<char>| tells_of_a_file(l) && l.len() >= 2 && l[0] == '?' && l[1] == '?';
    law_counting_is_filtering(all, p);
    law_counting_is_filtering(all, q);
    lemma_dirty_counts(all);
    lemma_kinds(dirty_files(text));
}

proof fn lemma_dirty_counts(all: Seq<Seq<char>>)
    ensures
        gather(all, |line: Seq<char>| dirty_file(line)).len() == count_of(
            all,
            |l: Seq<char>| tells_of_a_file(l),
        ),
        of_kind(gather(all, |line: Seq<char>| dirty_file(line)), FileKind::Untracked) == count_of(
            all,
            |l: Seq<char>| tells_of_a_file(l) && l.len() >= 2 && l[0] == '?' && l[1] == '?',
        ),
    decreases all.len(),
{
    if all.len() > 0 {
        let rest = all.drop_last();
        let l = all.last();
        lemma_dirty_counts(rest);
        assert(all =~= rest.push(l));
        lemma_two_marks(l);
    }
}

proof fn lemma_two_marks(l: Seq<char>)
    ensures
        has_prefix(l, "??"@) <==> l.len() >= 2 && l[0] == '?' && l[1] == '?',
{
    reveal_strlit("??");
    if has_prefix(l, "??"@) {
        assert(l.take(2)[0] == l[0]);
        assert(l.take(2)[1] == l[1]);
    }
    if l.len() >= 2 && l[0] == '?' && l[1] == '?' {
        assert(l.take(2) =~= "??"@);
    }
}

/// A line with a status of two characters of ASCII, a space and a path is the file at that
/// path; of a file with two paths it is the second.
pub proof fn law_status_lines_are_read(x: char, y: char, old: Seq<char>, path: Seq<char>)
    requires
        (x as u32) < 0x80,
        (y as u32) < 0x80,
        path.len() > 0,
        !white(path[0]),
        !white(path.last()),
        forall|k: int|
            k > old.len() ==> !#[trigger] occurs_at(old + " -> "@ + path, " -> "@, k),
    ensures
        ({
            let one = dirty_file(seq![x, y, ' '] + path);
            &&& tells_of_a_file(seq![x, y, ' '] + path)
            &&& one is Some
            &&& one.unwrap().1 == FileKind::Untracked <==> x == '?' && y == '?'
            &&& x != 'R' && x != 'C' && y != 'R' && y != 'C' ==> one.unwrap().0 == path
        }),
        x == 'R' || x == 'C' || y == 'R' || y == 'C' ==> dirty_file(
            seq![x, y, ' '] + (old + " -> "@ + path),
        ) == Some((path, FileKind::Modified)),
{
    reveal_strlit(" -> ");
    let line = seq![x, y, ' '] + path;
    lemma_three_bytes(x, y, path);
    assert(line.skip(3) =~= path);
    lemma_two_marks(line);
    lemma_trim_none(path);
    let both = old + " -> "@ + path;
    let moved = seq![x, y, ' '] + both;
    lemma_three_bytes(x, y, both);
    assert(moved.skip(3) =~= both);
    lemma_two_marks(moved);
    law_after_the_last(old, " -> "@, path);
}

proof fn lemma_three_bytes(x: char, y: char, path: Seq<char>)
    requires
        (x as u32) < 0x80,
        (y as u32) < 0x80,
        path.len() > 0,
    ensures
        byte_len(seq![x, y, ' '] + path) >= 4,
        chars_in(seq![x, y, ' '] + path, 3) == Some(3nat),
{
    let line = seq![x, y, ' '] + path;
    assert(line.skip(1) =~= seq![y, ' '] + path);
    assert((seq![y, ' '] + path).skip(1) =~= seq![' '] + path);
    assert((seq![' '] + path).skip(1) =~= path);
    assert(byte_len(path) >= 1);
    assert(byte_len(seq![' '] + path) == 1 + byte_len(path));
    assert(byte_len(seq![y, ' '] + path) == 1 + byte_len(seq![' '] + path));
    assert(chars_in(path, 0) == Some(0nat));
    assert(chars_in(seq![' '] + path, 1) == Some(1nat));
    assert(chars_in(seq![y, ' '] + path, 2) == Some(2nat));
}

/// The sample of a snapshot is the first of the files: a smaller cap keeps the beginning of
/// what a greater one keeps.
pub proof fn law_samples_are_beginnings(
    a: WorktreeSnapshot,
    b: WorktreeSnapshot,
    text: Seq<char>,
    less: nat,
    more: nat,
)
    requires
        snapshot_of(a, text, less),
        snapshot_of(b, text, more),
        less <= more,
    ensures
        a.total_untracked == b.total_untracked,
        a.total_modified == b.total_modified,
        b.files@.len() <= less ==> file_views(a.files@) == file_views(b.files@),
        b.files@.len() > less ==> file_views(a.files@) == file_views(b.files@).take(less as int),
{
    let files = dirty_files(text);
    assert(file_views(b.files@).len() == b.files@.len());
    if b.files@.len() > less {
        assert(sample(files, less) =~= sample(files, more).take(less as int));
    }
}

/// Of a run that is over, a failure, a failed start and a timeout are failures, and any other
/// conclusion is a success; a run in progress is running; one that is queued, pending,
/// requested or waiting is pending; and nothing is known of any other.
pub proof fn law_runs_have_outcomes(status: Seq<char>, conclusion: Seq<char>)
    ensures
        outcome(status, conclusion) == Some("failure"@) <==> status == "completed"@ && (conclusion
            == "failure"@ || conclusion == "startup_failure"@ || conclusion == "timed_out"@),
        outcome(status, conclusion) == Some("success"@) <==> status == "completed"@ && conclusion
            != "failure"@ && conclusion != "startup_failure"@ && conclusion != "timed_out"@,
        outcome(status, conclusion) == Some("running"@) <==> status == "in_progress"@,
        outcome(status, conclusion) == Some("pending"@) <==> status == "queued"@ || status
            == "pending"@ || status == "requested"@ || status == "waiting"@,
        outcome(status, conclusion) is None <==> status != "completed"@ && status != "in_progress"@
            && status != "queued"@ && status != "pending"@ && status != "requested"@ && status
            != "waiting"@,
{
    reveal_strlit("failure");
    reveal_strlit("success");
    reveal_strlit("running");
    reveal_strlit("pending");
    reveal_strlit("completed");
    reveal_strlit("in_progress");
    reveal_strlit("queued");
    reveal_strlit("requested");
    reveal_strlit("waiting");
    assert("failure"@[0] != "success"@[0] && "failure"@[0] != "running"@[0] && "failure"@[0]
        != "pending"@[0]);
    assert("success"@[0] != "running"@[0] && "success"@[0] != "pending"@[0] && "running"@[0]
        != "pending"@[0]);
    assert("completed"@[0] != "in_progress"@[0] && "completed"@[0] != "queued"@[0]
        && "completed"@[0] != "pending"@[0] && "completed"@[0] != "requested"@[0]
        && "completed"@[0] != "waiting"@[0]);
    assert("in_progress"@[0] != "queued"@[0] && "in_progress"@[0] != "pending"@[0]
        && "in_progress"@[0] != "requested"@[0] && "in_progress"@[0] != "waiting"@[0]);
}

/// The outcome of a branch is that of the first run listed, and there is none where none is
/// listed.
pub proof fn law_the_latest_run_counts(runs: Seq<JsonTree>, status: Seq<char>, conclusion: Seq<char>)
    ensures
        runs.len() > 0 && member(runs[0], "status"@) == Some(JsonTree::Text(status)) && member(
            runs[0],
            "conclusion"@,
        ) == Some(JsonTree::Text(conclusion)) ==> first_outcome(Some(JsonTree::Array(runs)))
            == outcome(status, conclusion),
        runs.len() > 0 && member(runs[0], "status"@) == Some(JsonTree::Text(status)) && member(
            runs[0],
            "conclusion"@,
        ) is None ==> first_outcome(Some(JsonTree::Array(runs))) == outcome(status, Seq::empty()),
        runs.len() == 0 ==> first_outcome(Some(JsonTree::Array(runs))) is None,
        first_outcome(None) is None,
{
}

/// Whether a review of a pull request is asked of someone.
pub open spec fn asks_of(pr: JsonTree, login: Seq<char>) -> bool {
    exists|requests: JsonTree, nodes: Seq<JsonTree>, i: int, who: JsonTree|
        member(pr, "reviewRequests"@) == Some(requests) && member(requests, "nodes"@) == Some(
            JsonTree::Array(nodes),
        ) && 0 <= i < nodes.len() && #[trigger] member(nodes[i], "requestedReviewer"@) == Some(who)
            && #[trigger] member(who, "login"@) == Some(JsonTree::Text(login)) && #[trigger] member(
            requests,
            "nodes"@,
        ) is Some
}

/// Whether a pull request is by someone.
pub open spec fn is_by(pr: JsonTree, login: Seq<char>) -> bool {
    exists|who: JsonTree|
        member(pr, "author"@) == Some(who) && #[trigger] member(who, "login"@) == Some(
            JsonTree::Text(login),
        )
}

/// Every open pull request counts as one, and besides as a draft where it is one, as one that
/// awaits the user where a review of it is asked of the user, and as one of the user's that
/// waits where it is by the user and no draft: `a` counts the ones before it, `b` these and
/// it.
pub proof fn law_pull_requests_add_up(
    a: PrCounts,
    b: PrCounts,
    prs: Seq<JsonTree>,
    pr: JsonTree,
    me: Seq<char>,
)
    requires
        counts_of(a, prs, me),
        counts_of(b, prs.push(pr), me),
        me.len() > 0,
    ensures
        b.open == a.open + 1,
        b.draft == a.draft + (if member(pr, "isDraft"@) == Some(JsonTree::Bool(true)) {
            1int
        } else {
            0
        }),
        b.awaiting_my_review == a.awaiting_my_review + (if asks_of(pr, me) {
            1int
        } else {
            0
        }),
        b.mine_awaiting_review == a.mine_awaiting_review + (if is_by(pr, me) && member(
            pr,
            "isDraft"@,
        ) != Some(JsonTree::Bool(true)) {
            1int
        } else {
            0
        }),
        prs.len() == 0 ==> a.open == 0 && a.draft == 0 && a.awaiting_my_review == 0
            && a.mine_awaiting_review == 0,
{
    lemma_asks(pr, me);
    assert(author(pr) == me <==> is_by(pr, me)) by {
        if author(pr) == me {
            let who = member(pr, "author"@).unwrap();
            assert(member(who, "login"@) == Some(JsonTree::Text(me)));
        }
    }
}

proof fn lemma_asks(pr: JsonTree, me: Seq<char>)
    requires
        me.len() > 0,
    ensures
        awaits_me(pr, me) <==> asks_of(pr, me),
{
    let f = |r: JsonTree| reviewer(r);
    if awaits_me(pr, me) {
        let requests = member(pr, "reviewRequests"@).unwrap();
        let nodes = items_in(member(requests, "nodes"@)).unwrap();
        law_what_is_gathered(nodes, f, me);
        let i = choose|i: int| 0 <= i < nodes.len() && f(#[trigger] nodes[i]) == Some(me);
        let who = member(nodes[i], "requestedReviewer"@).unwrap();
        assert(member(who, "login"@) == Some(JsonTree::Text(me)));
        assert(member(requests, "nodes"@) is Some);
        assert(asks_of(pr, me));
    }
    if asks_of(pr, me) {
        let (requests, nodes, i, who) = choose|
            requests: JsonTree,
            nodes: Seq<JsonTree>,
            i: int,
            who: JsonTree,
        |
            member(pr, "reviewRequests"@) == Some(requests) && member(requests, "nodes"@) == Some(
                JsonTree::Array(nodes),
            ) && 0 <= i < nodes.len() && #[trigger] member(nodes[i], "requestedReviewer"@) == Some(
                who,
            ) && #[trigger] member(who, "login"@) == Some(JsonTree::Text(me)) && #[trigger] member(
                requests,
                "nodes"@,
            ) is Some;
        law_what_is_gathered(nodes, f, me);
        assert(f(nodes[i]) == Some(me));
    }
}

/// The pull requests and the issues of an answer are those of the repository in its data.
pub proof fn law_answers_are_of_their_repository(
    body: JsonTree,
    data: JsonTree,
    repo: JsonTree,
    part: JsonTree,
    prs: Seq<JsonTree>,
    total: i64,
    text: Seq<char>,
)
    requires
        member(body, "data"@) == Some(data),
        member(data, "repository"@) == Some(repo),
    ensures
        repository(body) is Some,
        member(repo, "pullRequests"@) == Some(part) && member(part, "nodes"@) == Some(
            JsonTree::Array(prs),
        ) ==> pull_requests(body) == prs,
        member(repo, "pullRequests"@) is None ==> pull_requests(body).len() == 0,
        member(repo, "issues"@) == Some(part) && member(part, "totalCount"@) == Some(
            JsonTree::Number(Some(total), text),
        ) ==> issue_total(body) == total,
        member(repo, "issues"@) is None ==> issue_total(body) == 0,
{
}

/// An answer without a repository in its data says nothing.
pub proof fn law_answers_without_a_repository(body: JsonTree)
    requires
        member(body, "data"@) is None || member(member(body, "data"@).unwrap(), "repository"@) is None,
    ensures
        repository(body) is None,
{
}

/// A row before any header belongs to no commit.
pub proof fn law_rows_before_all_commits(rows: Seq<Seq<char>>, row: Seq<char>)
    requires
        forall|i: int| 0 <= i < rows.len() ==> header(#[trigger] rows[i]) is None,
        numbers(row) is Some,
    ensures
        ({
            let all = changes(rows.push(row));
            &&& all.len() > 0
            &&& all.last().head.sha.len() == 0
            &&& all.last().head.timestamp == 0
            &&& all.last().head.author_email.len() == 0
        }),
{
    lemma_no_header(rows);
    assert(rows.push(row).drop_last() =~= rows);
}

proof fn lemma_no_header(rows: Seq<Seq<char>>)
    requires
        forall|i: int| 0 <= i < rows.len() ==> header(#[trigger] rows[i]) is None,
    ensures
        last_header(rows).sha.len() == 0,
        last_header(rows).timestamp == 0,
        last_header(rows).author_email.len() == 0,
    decreases rows.len(),
{
    if rows.len() > 0 {
        assert(header(rows[rows.len() - 1]) is None);
        lemma_no_header(rows.drop_last());
    }
}

/// The words for the kinds of dirty files tell them apart.
pub proof fn law_kinds_have_their_words(kind: FileKind)
    ensures
        kind.word() == "untracked"@ <==> kind is Untracked,
        kind.word() == "modified"@ <==> kind is Modified,
{
    reveal_strlit("untracked");
    reveal_strlit("modified");
    assert("untracked"@[0] == 'u');
    assert("modified"@[0] == 'm');
}

} // verus!
