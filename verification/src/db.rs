//! The records kept in the cache, and what is computed from rows as the cache
//! hands them out.

use crate::seqs::{gather, group_list_steps};
use crate::text::{chars_of, opt_text, str_eq};
use vstd::prelude::*;

verus! {

broadcast use group_list_steps;

/// One of the most-edited files of a repository.
#[derive(Debug, Clone)]
pub struct FileHotspot {
    pub file_path: String,
    pub churn: i64,
    pub commits: i64,
    pub authors: i64,
}

/// One result of a full-text search.
#[derive(Debug, Clone)]
pub struct SearchHit {
    pub kind: String,
    pub ref_id: i64,
    pub text: String,
    pub extra: Option<String>,
}

/// A repository with everything that is known of it.
#[derive(Debug, Clone)]
pub struct Repo {
    pub id: i64,
    pub path: String,
    pub name: String,
    pub session_count: i64,
    /// Commits in the last 30 days.
    pub commits_30d: i64,
    pub loc_churn_30d: i64,
    pub untracked_files: i64,
    pub modified_files: i64,
    /// Distinct commit author emails in the last 30 days.
    pub authors_30d: i64,
    pub ci_status: Option<String>,
    pub commits_ahead: i64,
    pub commits_behind: i64,
    pub stash_count: i64,
    pub head_ref: Option<String>,
    pub in_progress_op: Option<String>,
    pub open_prs: i64,
    pub draft_prs: i64,
    pub open_issues: i64,
    pub prs_awaiting_my_review: i64,
    pub prs_mine_awaiting_review: i64,
    pub remote_url: Option<String>,
    pub default_branch: Option<String>,
}

/// An indexed session.
#[derive(Debug, Clone)]
pub struct Session {
    pub id: i64,
    pub session_uuid: String,
    pub cwd: Option<String>,
    pub started_at: Option<i64>,
    pub ended_at: Option<i64>,
    pub message_count: i64,
    pub summary: Option<String>,
    pub source_file: String,
    pub duration_ms: Option<i64>,
    pub input_tokens: i64,
    pub output_tokens: i64,
    pub cache_read_tokens: i64,
    pub cache_creation_tokens: i64,
}

/// A session and the repositories it is joined to: id, name and path of each.
#[derive(Debug, Clone)]
pub struct SessionWithRepos {
    pub session: Session,
    pub repos: Vec<(i64, String, String)>,
}

/// An indexed commit.
#[derive(Debug, Clone)]
pub struct Commit {
    pub id: i64,
    pub repo_id: i64,
    pub sha: String,
    pub author_name: String,
    pub author_email: String,
    pub timestamp: i64,
    pub subject: String,
}

/// A commit and the repository it belongs to.
#[derive(Debug, Clone)]
pub struct CommitWithRepo {
    pub commit: Commit,
    pub repo_id: i64,
    pub repo_name: String,
    pub repo_path: String,
    /// Browsable base of the repository's origin, where it is known.
    pub repo_remote_url: Option<String>,
}

/// One repository's uncommitted work: the total, and a bounded sample of paths.
#[derive(Debug, Clone)]
pub struct UncommittedGroup {
    pub repo_id: i64,
    pub repo_name: String,
    pub repo_path: String,
    pub repo_remote_url: Option<String>,
    /// Untracked and modified files together: the full count, not the sample.
    pub total: i64,
    /// A bounded sample of paths, each with its kind.
    pub sample: Vec<(String, String)>,
}

/// A repository whose latest default-branch run failed.
#[derive(Debug, Clone)]
pub struct CiFailure {
    pub repo_id: i64,
    pub repo_name: String,
    pub repo_path: String,
    pub remote_url: Option<String>,
    pub default_branch: Option<String>,
}

// ---------------------------------------------------------------------------
// Searching
// ---------------------------------------------------------------------------

/// A text with every quotation mark doubled.
pub open spec fn marks_doubled(s: Seq<char>) -> Seq<char>
    decreases s.len(),
{
    if s.len() == 0 {
        Seq::empty()
    } else if s.last() == '"' {
        marks_doubled(s.drop_last()).push('"').push('"')
    } else {
        marks_doubled(s.drop_last()).push(s.last())
    }
}

/// A user's query as one phrase of the full-text index: in quotation marks, with
/// those inside it doubled.
pub fn search_phrase(query: &str) -> (out: String)
    ensures
        out@ == seq!['"'] + marks_doubled(query@) + seq!['"'],
{
    let chars = chars_of(query);
    let mut out = String::new();
    out.push('"');
    let mut i: usize = 0;
    assert(out@ =~= seq!['"'] + marks_doubled(query@.take(0)));
    while i < chars.len()
        invariant
            chars@ == query@,
            i <= chars@.len(),
            out@ == seq!['"'] + marks_doubled(query@.take(i as int)),
        decreases chars@.len() - i,
    {
        let c = chars[i];
        out.push(c);
        if c == '"' {
            out.push(c);
        }
        assert(query@.take(i + 1).drop_last() =~= query@.take(i as int));
        assert(out@ =~= seq!['"'] + marks_doubled(query@.take(i + 1)));
        i = i + 1;
    }
    assert(query@.take(i as int) =~= query@);
    out.push('"');
    assert(out@ =~= seq!['"'] + marks_doubled(query@) + seq!['"']);
    out
}

/// Two queries with the same phrase are the same: nothing of a query is lost, and none
/// of its quotation marks ends the phrase.
pub proof fn law_phrases_keep_their_queries(a: Seq<char>, b: Seq<char>)
    requires
        marks_doubled(a) == marks_doubled(b),
    ensures
        a == b,
    decreases a.len(),
{
    let (x, y) = (marks_doubled(a), marks_doubled(b));
    if a.len() > 0 && b.len() > 0 {
        let (s, t) = (a.drop_last(), b.drop_last());
        assert(x.last() == a.last());
        assert(y.last() == b.last());
        if a.last() == '"' {
            assert(marks_doubled(s) =~= x.drop_last().drop_last());
            assert(marks_doubled(t) =~= y.drop_last().drop_last());
        } else {
            assert(marks_doubled(s) =~= x.drop_last());
            assert(marks_doubled(t) =~= y.drop_last());
        }
        law_phrases_keep_their_queries(s, t);
        assert(a =~= s.push(a.last()));
        assert(b =~= t.push(b.last()));
    } else {
        assert(x.len() == 0 <==> a.len() == 0);
        assert(y.len() == 0 <==> b.len() == 0);
        assert(a =~= b);
    }
}

// ---------------------------------------------------------------------------
// Time windows
// ---------------------------------------------------------------------------

/// The start of the window of recent activity: 30 days before `now`.
pub fn cutoff_30d(now: i64) -> (cutoff: i64)
    requires
        now >= i64::MIN + 2_592_000,
    ensures
        cutoff == now - 30 * 86_400,
{
    now - 30 * 86_400
}

// ---------------------------------------------------------------------------
// Uncommitted work, grouped by repository
// ---------------------------------------------------------------------------

/// One uncommitted file, joined to its repository.
pub struct UncommittedRow {
    pub repo_id: i64,
    pub repo_name: String,
    pub repo_path: String,
    pub repo_remote_url: Option<String>,
    pub total: i64,
    pub file_path: String,
    pub kind: String,
}

/// What a row says of its repository.
#[verifier::ext_equal]
pub struct RepoHead {
    pub repo_id: i64,
    pub repo_name: Seq<char>,
    pub repo_path: Seq<char>,
    pub repo_remote_url: Option<Seq<char>>,
    pub total: i64,
}

/// What a row says: its repository, and the path and kind of its file.
pub type RowView = (RepoHead, (Seq<char>, Seq<char>));

/// What a group says: its repository, and its sample.
pub type GroupView = (RepoHead, Seq<(Seq<char>, Seq<char>)>);

impl View for UncommittedRow {
    type V = RowView;

    open spec fn view(&self) -> RowView {
        (
            RepoHead {
                repo_id: self.repo_id,
                repo_name: self.repo_name@,
                repo_path: self.repo_path@,
                repo_remote_url: opt_text(self.repo_remote_url),
                total: self.total,
            },
            (self.file_path@, self.kind@),
        )
    }
}

impl View for UncommittedGroup {
    type V = GroupView;

    open spec fn view(&self) -> GroupView {
        (
            RepoHead {
                repo_id: self.repo_id,
                repo_name: self.repo_name@,
                repo_path: self.repo_path@,
                repo_remote_url: opt_text(self.repo_remote_url),
                total: self.total,
            },
            self.sample@.map_values(|f: (String, String)| (f.0@, f.1@)),
        )
    }
}

/// The rows that a list holds.
pub open spec fn row_views(rows: Seq<UncommittedRow>) -> Seq<RowView> {
    rows.map_values(|r: UncommittedRow| r@)
}

/// The groups that a list holds.
pub open spec fn group_views(groups: Seq<UncommittedGroup>) -> Seq<GroupView> {
    groups.map_values(|g: UncommittedGroup| g@)
}

/// The repositories that rows belong to, each once, in the order in which they first
/// come up.
pub open spec fn repos_in(rows: Seq<RowView>) -> Seq<i64>
    decreases rows.len(),
{
    if rows.len() == 0 {
        Seq::empty()
    } else {
        let front = repos_in(rows.drop_last());
        let id = rows.last().0.repo_id;
        if front.contains(id) {
            front
        } else {
            front.push(id)
        }
    }
}

/// The rows of one repository.
pub open spec fn rows_of(rows: Seq<RowView>, id: i64) -> Seq<RowView> {
    rows.filter(|r: RowView| r.0.repo_id == id)
}

/// The first `cap` items of a list, or all of them.
pub open spec fn at_most<T>(s: Seq<T>, cap: int) -> Seq<T> {
    if cap <= 0 {
        Seq::empty()
    } else if s.len() <= cap {
        s
    } else {
        s.take(cap)
    }
}

/// The group of a repository: what its first row says of it, and the files of its
/// first rows.
pub open spec fn group_of(rows: Seq<RowView>, id: i64, files_per_repo: nat) -> GroupView {
    (
        rows_of(rows, id)[0].0,
        at_most(rows_of(rows, id).map_values(|r: RowView| r.1), files_per_repo as int),
    )
}

/// The groups of the first `max_repos` repositories.
pub open spec fn grouped(rows: Seq<RowView>, max_repos: int, files_per_repo: nat) -> Seq<
    GroupView,
> {
    at_most(repos_in(rows), max_repos).map_values(|id: i64| group_of(rows, id, files_per_repo))
}

proof fn lemma_repos_in(rows: Seq<RowView>)
    ensures
        repos_in(rows).no_duplicates(),
        forall|id: i64| #[trigger]
            repos_in(rows).contains(id) ==> rows_of(rows, id).len() > 0 && rows_of(
                rows,
                id,
            )[0].0.repo_id == id,
        forall|id: i64| !#[trigger] repos_in(rows).contains(id) ==> rows_of(rows, id).len() == 0,
    decreases rows.len(),
{
    reveal(Seq::filter);
    if rows.len() > 0 {
        let rest = rows.drop_last();
        let row = rows.last();
        lemma_repos_in(rest);
        let front = repos_in(rest);
        let all = repos_in(rows);
        assert(all.no_duplicates());
        assert forall|id: i64| #[trigger] all.contains(id) implies rows_of(rows, id).len() > 0
            && rows_of(rows, id)[0].0.repo_id == id by {
            if id != row.0.repo_id {
                let k = choose|k: int| 0 <= k < all.len() && all[k] == id;
                assert(front[k] == id);
                assert(front.contains(id));
            }
            assert(front.contains(id) || !front.contains(id));
        }
        assert forall|id: i64| !#[trigger] all.contains(id) implies rows_of(rows, id).len()
            == 0 by {
            if front.contains(id) {
                let k = choose|k: int| 0 <= k < front.len() && front[k] == id;
                assert(all[k] == id);
            }
            assert(all.contains(row.0.repo_id)) by {
                if !front.contains(row.0.repo_id) {
                    assert(all.last() == row.0.repo_id);
                }
            }
        }
    }
}

/// What one more row does to the rows of each repository.
proof fn lemma_rows_of_push(rows: Seq<RowView>, row: RowView, id: i64)
    ensures
        rows_of(rows.push(row), id) == (if row.0.repo_id == id {
            rows_of(rows, id).push(row)
        } else {
            rows_of(rows, id)
        }),
{
    reveal(Seq::filter);
    assert(rows.push(row).drop_last() =~= rows);
}

/// One more row changes no group but that of its repository.
proof fn lemma_other_groups(rows: Seq<RowView>, row: RowView, kept: Seq<i64>, cap: nat)
    ensures
        forall|k: int|
            0 <= k < kept.len() && kept[k] != row.0.repo_id ==> group_of(
                rows.push(row),
                #[trigger] kept[k],
                cap,
            ) == group_of(rows, kept[k], cap),
{
    assert forall|k: int| 0 <= k < kept.len() && kept[k] != row.0.repo_id implies group_of(
        rows.push(row),
        #[trigger] kept[k],
        cap,
    ) == group_of(rows, kept[k], cap) by {
        lemma_rows_of_push(rows, row, kept[k]);
    }
}

/// One more row of a repository that has a group.
proof fn lemma_row_joins(rows: Seq<RowView>, row: RowView, k: int, max: int, cap: nat)
    requires
        0 <= k < grouped(rows, max, cap).len(),
        grouped(rows, max, cap)[k].0.repo_id == row.0.repo_id,
    ensures
        ({
            let before = grouped(rows, max, cap);
            grouped(rows.push(row), max, cap) == before.update(
                k,
                (
                    before[k].0,
                    if before[k].1.len() < cap {
                        before[k].1.push(row.1)
                    } else {
                        before[k].1
                    },
                ),
            )
        }),
{
    let all = rows.push(row);
    let before = grouped(rows, max, cap);
    let ids = repos_in(rows);
    let kept = at_most(ids, max);
    let id = row.0.repo_id;
    lemma_repos_in(rows);
    assert(all.drop_last() =~= rows);
    assert(kept[k] == ids[k]);
    assert(ids.contains(ids[k]));
    assert(kept[k] == id);
    assert(repos_in(all) == ids);
    lemma_rows_of_push(rows, row, id);
    lemma_other_groups(rows, row, kept, cap);
    let part = rows_of(rows, id).map_values(|r: RowView| r.1);
    let more = rows_of(all, id).map_values(|r: RowView| r.1);
    assert(more =~= part.push(row.1));
    assert(at_most(more, cap as int) =~= if at_most(part, cap as int).len() < cap {
        at_most(part, cap as int).push(row.1)
    } else {
        at_most(part, cap as int)
    });
    let after = grouped(all, max, cap);
    assert forall|i: int| 0 <= i < after.len() && i != k implies after[i] == before[i] by {
        assert(kept[i] == ids[i]);
        assert(kept[i] != id);
    }
    assert(after =~= before.update(
        k,
        (
            before[k].0,
            if before[k].1.len() < cap {
                before[k].1.push(row.1)
            } else {
                before[k].1
            },
        ),
    ));
}

/// One row of a repository that has no group.
proof fn lemma_row_starts(rows: Seq<RowView>, row: RowView, max: int, cap: nat)
    requires
        forall|k: int|
            0 <= k < grouped(rows, max, cap).len() ==> (#[trigger] grouped(
                rows,
                max,
                cap,
            )[k]).0.repo_id != row.0.repo_id,
    ensures
        grouped(rows.push(row), max, cap) == (if grouped(rows, max, cap).len() < max {
            grouped(rows, max, cap).push((row.0, at_most(seq![row.1], cap as int)))
        } else {
            grouped(rows, max, cap)
        }),
{
    let all = rows.push(row);
    let before = grouped(rows, max, cap);
    let ids = repos_in(rows);
    let kept = at_most(ids, max);
    let id = row.0.repo_id;
    lemma_repos_in(rows);
    assert(all.drop_last() =~= rows);
    assert forall|k: int| 0 <= k < kept.len() implies kept[k] != id by {
        assert(kept[k] == ids[k]);
        assert(ids.contains(ids[k]));
        assert(before[k] == group_of(rows, kept[k], cap));
    }
    lemma_rows_of_push(rows, row, id);
    lemma_other_groups(rows, row, kept, cap);
    let after = grouped(all, max, cap);
    if before.len() < max {
        assert(kept == ids);
        assert(!ids.contains(id));
        assert(repos_in(all) == ids.push(id));
        assert(at_most(ids.push(id), max) =~= kept.push(id));
        assert(rows_of(all, id) =~= seq![row]);
        assert(rows_of(all, id).map_values(|r: RowView| r.1) =~= seq![row.1]);
        assert(after =~= before.push((row.0, at_most(seq![row.1], cap as int))));
    } else {
        assert(at_most(repos_in(all), max) =~= kept);
        assert(after =~= before);
    }
}

/// The place of the group of a repository, and the number of groups where it has none.
fn find_group(groups: &Vec<UncommittedGroup>, repo_id: i64) -> (k: usize)
    ensures
        k <= groups@.len(),
        k < groups@.len() ==> groups@[k as int].repo_id == repo_id,
        forall|i: int| 0 <= i < k ==> (#[trigger] groups@[i]).repo_id != repo_id,
{
    let mut k: usize = 0;
    while k < groups.len() && groups[k].repo_id != repo_id
        invariant
            k <= groups@.len(),
            forall|i: int| 0 <= i < k ==> (#[trigger] groups@[i]).repo_id != repo_id,
        decreases groups@.len() - k,
    {
        k = k + 1;
    }
    k
}

/// Groups the uncommitted files of the cache by repository: one group for each of the
/// first `max_repos` repositories, with a sample of at most `files_per_repo` files.
pub fn group_uncommitted(rows: Vec<UncommittedRow>, max_repos: i64, files_per_repo: usize) -> (out:
    Vec<UncommittedGroup>)
    ensures
        group_views(out@) == grouped(row_views(rows@), max_repos as int, files_per_repo as nat),
        forall|i: int, j: int|
            0 <= i < j < out@.len() ==> (#[trigger] out@[i]).repo_id != (#[trigger] out@[j]).repo_id,
{
    let ghost all = row_views(rows@);
    let ghost cap = files_per_repo as nat;
    let ghost max = max_repos as int;
    let mut groups: Vec<UncommittedGroup> = Vec::new();
    assert(group_views(groups@) =~= grouped(all.take(0), max, cap));
    for row in it: rows
        invariant
            it.seq() == rows@,
            all == row_views(rows@),
            cap == files_per_repo,
            max == max_repos,
            group_views(groups@) == grouped(all.take(it.index() as int), max, cap),
    {
        let ghost done = all.take(it.index() as int);
        let ghost before = group_views(groups@);
        let ghost old_groups = groups@;
        proof {
            assert(all[it.index() as int] == row@);
            assert(all.take(it.index() + 1) =~= done.push(row@));
            assert(forall|i: int| 0 <= i < before.len() ==> before[i] == old_groups[i]@);
        }
        let k = find_group(&groups, row.repo_id);
        if k < groups.len() {
            proof {
                lemma_row_joins(done, row@, k as int, max, cap);
            }
            if groups[k].sample.len() < files_per_repo {
                groups[k].sample.push((row.file_path, row.kind));
                assert(groups@[k as int]@.1 =~= before[k as int].1.push(row@.1));
            }
            assert(group_views(groups@) =~= grouped(done.push(row@), max, cap));
        } else {
            proof {
                lemma_row_starts(done, row@, max, cap);
            }
            if max_repos > 0 && (groups.len() as u64) < max_repos as u64 {
                let mut sample: Vec<(String, String)> = Vec::new();
                if files_per_repo > 0 {
                    sample.push((row.file_path, row.kind));
                }
                let group = UncommittedGroup {
                    repo_id: row.repo_id,
                    repo_name: row.repo_name,
                    repo_path: row.repo_path,
                    repo_remote_url: row.repo_remote_url,
                    total: row.total,
                    sample,
                };
                assert(group@.1 =~= at_most(seq![row@.1], cap as int));
                groups.push(group);
                assert(group_views(groups@) =~= before.push(group@));
            }
        }
    }
    proof {
        assert(all.take(all.len() as int) =~= all);
        law_one_group_each(all, max, cap);
        let views = group_views(groups@);
        assert forall|i: int, j: int| 0 <= i < j < groups@.len() implies (
        #[trigger] groups@[i]).repo_id != (#[trigger] groups@[j]).repo_id by {
            assert(views[i].0.repo_id == groups@[i].repo_id);
            assert(views[j].0.repo_id == groups@[j].repo_id);
        }
    }
    groups
}

/// No repository has two groups.
pub proof fn law_one_group_each(rows: Seq<RowView>, max_repos: int, files_per_repo: nat)
    ensures
        ({
            let groups = grouped(rows, max_repos, files_per_repo);
            forall|i: int, j: int|
                0 <= i < j < groups.len() ==> (#[trigger] groups[i]).0.repo_id != (
                #[trigger] groups[j]).0.repo_id
        }),
{
    lemma_repos_in(rows);
    let ids = repos_in(rows);
    let groups = grouped(rows, max_repos, files_per_repo);
    assert forall|i: int, j: int| 0 <= i < j < groups.len() implies (
    #[trigger] groups[i]).0.repo_id != (#[trigger] groups[j]).0.repo_id by {
        assert(ids.contains(ids[i]));
        assert(ids.contains(ids[j]));
        assert(ids[i] != ids[j]);
    }
}

/// However much is dirty, there are at most `max_repos` groups, and no sample holds more
/// than `files_per_repo` files.
pub proof fn law_groups_are_bounded(rows: Seq<RowView>, max_repos: int, files_per_repo: nat)
    requires
        max_repos >= 0,
    ensures
        grouped(rows, max_repos, files_per_repo).len() <= max_repos,
        forall|i: int|
            0 <= i < grouped(rows, max_repos, files_per_repo).len() ==> (#[trigger] grouped(
                rows,
                max_repos,
                files_per_repo,
            )[i]).1.len() <= files_per_repo,
{
}

/// Whether rows come with the greater totals first.
pub open spec fn by_total(rows: Seq<RowView>) -> bool {
    forall|i: int, j: int|
        0 <= i < j < rows.len() ==> (#[trigger] rows[i]).0.total >= (#[trigger] rows[j]).0.total
}

/// Of rows that come with the greater totals first, the groups do too, and a repository
/// without a group has no greater total than one with a group.
pub proof fn law_greatest_come_first(rows: Seq<RowView>, max_repos: int, files_per_repo: nat)
    requires
        by_total(rows),
    ensures
        ({
            let groups = grouped(rows, max_repos, files_per_repo);
            &&& forall|i: int, j: int|
                0 <= i < j < groups.len() ==> (#[trigger] groups[i]).0.total >= (
                #[trigger] groups[j]).0.total
            &&& forall|i: int, k: int|
                0 <= i < groups.len() && 0 <= k < rows.len() && (forall|j: int|
                    0 <= j < groups.len() ==> (#[trigger] groups[j]).0.repo_id
                        != rows[k].0.repo_id) ==> (#[trigger] groups[i]).0.total >= (
                #[trigger] rows[k]).0.total
        }),
{
    let ids = repos_in(rows);
    let kept = at_most(ids, max_repos);
    let groups = grouped(rows, max_repos, files_per_repo);
    lemma_repos_in(rows);
    assert forall|i: int| 0 <= i < groups.len() implies (#[trigger] groups[i]).0 == rows_of(
        rows,
        ids[i],
    )[0].0 && groups[i].0.repo_id == ids[i] by {
        assert(ids.contains(ids[i]));
    }
    assert forall|i: int, j: int| 0 <= i < j < groups.len() implies (#[trigger] groups[i]).0.total
        >= (#[trigger] groups[j]).0.total by {
        lemma_first_rows(rows, i, j);
    }
    assert forall|i: int, k: int|
        0 <= i < groups.len() && 0 <= k < rows.len() && (forall|j: int|
            0 <= j < groups.len() ==> (#[trigger] groups[j]).0.repo_id
                != rows[k].0.repo_id) implies (#[trigger] groups[i]).0.total >= (
    #[trigger] rows[k]).0.total by {
        lemma_row_has_repo(rows, k);
        let j = choose|j: int|
            0 <= j < ids.len() && #[trigger] ids[j] == rows[k].0.repo_id && rows_of(
                rows,
                ids[j],
            )[0].0.total >= rows[k].0.total;
        if j < groups.len() {
            assert(groups[j].0.repo_id == rows[k].0.repo_id);
        }
        lemma_first_rows(rows, i, j);
    }
}

/// The repository of a row is among those of all rows, and its first row has at least
/// the row's total.
proof fn lemma_row_has_repo(rows: Seq<RowView>, k: int)
    requires
        by_total(rows),
        0 <= k < rows.len(),
    ensures
        exists|j: int|
            0 <= j < repos_in(rows).len() && #[trigger] repos_in(rows)[j] == rows[k].0.repo_id
                && rows_of(rows, repos_in(rows)[j])[0].0.total >= rows[k].0.total,
    decreases rows.len(),
{
    let rest = rows.drop_last();
    let row = rows.last();
    let id = rows[k].0.repo_id;
    assert(rest.push(row) =~= rows);
    lemma_rows_of_push(rest, row, id);
    lemma_repos_in(rest);
    let front = repos_in(rest);
    if front.contains(id) {
        let j = choose|j: int| 0 <= j < front.len() && front[j] == id;
        assert(repos_in(rows)[j] == id);
        lemma_rows_are_rows(rest, id);
        assert(rows_of(rest, id)[0] == rows_of(rows, id)[0]);
        if k < rest.len() {
            lemma_first_is_greatest(rest, id, k);
        } else {
            let f = choose|f: int| 0 <= f < rest.len() && rest[f] == rows_of(rest, id)[0];
            assert(rows[f] == rest[f]);
        }
    } else {
        if k < rest.len() {
            assert(rest[k] == rows[k]);
            assert(by_total(rest));
            lemma_row_has_repo(rest, k);
            let j = choose|j: int|
                0 <= j < front.len() && #[trigger] front[j] == rest[k].0.repo_id && rows_of(
                    rest,
                    front[j],
                )[0].0.total >= rest[k].0.total;
            assert(front.contains(front[j]));
        }
        assert(repos_in(rows).last() == id);
    }
}

/// The first row of a repository is one of the rows.
proof fn lemma_rows_are_rows(rows: Seq<RowView>, id: i64)
    ensures
        rows_of(rows, id).len() > 0 ==> exists|f: int|
            0 <= f < rows.len() && rows[f] == rows_of(rows, id)[0],
    decreases rows.len(),
{
    reveal(Seq::filter);
    if rows.len() > 0 {
        let rest = rows.drop_last();
        lemma_rows_are_rows(rest, id);
        if rows_of(rest, id).len() > 0 {
            let f = choose|f: int| 0 <= f < rest.len() && rest[f] == rows_of(rest, id)[0];
            assert(rows[f] == rest[f]);
        } else if rows_of(rows, id).len() > 0 {
            assert(rows[rows.len() - 1] == rows_of(rows, id)[0]);
        }
    }
}

/// Of a repository's rows, the first has the greatest total.
proof fn lemma_first_is_greatest(rows: Seq<RowView>, id: i64, k: int)
    requires
        by_total(rows),
        0 <= k < rows.len(),
        rows[k].0.repo_id == id,
    ensures
        rows_of(rows, id).len() > 0,
        rows_of(rows, id)[0].0.total >= rows[k].0.total,
    decreases rows.len(),
{
    reveal(Seq::filter);
    let rest = rows.drop_last();
    assert(by_total(rest));
    if k < rest.len() {
        assert(rest[k] == rows[k]);
        lemma_first_is_greatest(rest, id, k);
    } else if rows_of(rest, id).len() > 0 {
        lemma_rows_are_rows(rest, id);
        let f = choose|f: int| 0 <= f < rest.len() && rest[f] == rows_of(rest, id)[0];
        assert(rows[f] == rest[f]);
    }
}

/// Of two repositories, the one that first comes up has the greater total there.
proof fn lemma_first_rows(rows: Seq<RowView>, i: int, j: int)
    requires
        by_total(rows),
        0 <= i < j < repos_in(rows).len(),
    ensures
        rows_of(rows, repos_in(rows)[i])[0].0.total >= rows_of(
            rows,
            repos_in(rows)[j],
        )[0].0.total,
    decreases rows.len(),
{
    let rest = rows.drop_last();
    let row = rows.last();
    let front = repos_in(rest);
    let ids = repos_in(rows);
    assert(rest.push(row) =~= rows);
    assert(by_total(rest));
    lemma_repos_in(rest);
    lemma_rows_of_push(rest, row, ids[i]);
    lemma_rows_of_push(rest, row, ids[j]);
    assert(front.contains(front[i]));
    if j < front.len() {
        assert(front.contains(front[j]));
        lemma_first_rows(rest, i, j);
    } else {
        lemma_rows_are_rows(rest, ids[i]);
        let f = choose|f: int| 0 <= f < rest.len() && rest[f] == rows_of(rest, ids[i])[0];
        assert(rows[f] == rest[f]);
    }
}

// ---------------------------------------------------------------------------
// Repositories of a session, by how they were matched
// ---------------------------------------------------------------------------

/// A repository joined to a session, and how it was matched.
pub struct MatchRow {
    pub repo_id: i64,
    pub repo_name: String,
    pub repo_path: String,
    pub match_type: String,
}

/// Id, name and path of a repository.
pub type LinkView = (i64, Seq<char>, Seq<char>);

/// The links that a list holds.
pub open spec fn link_views(links: Seq<(i64, String, String)>) -> Seq<LinkView> {
    links.map_values(|l: (i64, String, String)| (l.0, l.1@, l.2@))
}

/// The row's repository, where it was matched as `mention` says.
pub open spec fn link_if(mention: bool) -> spec_fn(MatchRow) -> Option<LinkView> {
    |row: MatchRow|
        if (row.match_type@ == "content_mention"@) == mention {
            Some((row.repo_id, row.repo_name@, row.repo_path@))
        } else {
            None
        }
}

/// Parts the repositories of a session: those matched by its working directory,
/// and those that its text mentions.
pub fn split_by_match(rows: Vec<MatchRow>) -> (out: (
    Vec<(i64, String, String)>,
    Vec<(i64, String, String)>,
))
    ensures
        link_views(out.0@) == gather(rows@, link_if(false)),
        link_views(out.1@) == gather(rows@, link_if(true)),
{
    let mut cwd: Vec<(i64, String, String)> = Vec::new();
    let mut content: Vec<(i64, String, String)> = Vec::new();
    let ghost all = rows@;
    assert(link_views(cwd@) =~= gather(all.take(0), link_if(false)));
    assert(link_views(content@) =~= gather(all.take(0), link_if(true)));
    for row in it: rows
        invariant
            it.seq() == all,
            link_views(cwd@) == gather(all.take(it.index()), link_if(false)),
            link_views(content@) == gather(all.take(it.index()), link_if(true)),
    {
        let ghost i = it.index();
        let ghost link: LinkView = (row.repo_id, row.repo_name@, row.repo_path@);
        let ghost before = (link_views(cwd@), link_views(content@));
        assert(all.take(i + 1) =~= all.take(i).push(row));
        if str_eq(row.match_type.as_str(), "content_mention") {
            content.push((row.repo_id, row.repo_name, row.repo_path));
            assert(link_views(content@) =~= before.1.push(link));
        } else {
            cwd.push((row.repo_id, row.repo_name, row.repo_path));
            assert(link_views(cwd@) =~= before.0.push(link));
        }
    }
    assert(all.take(all.len() as int) =~= all);
    (cwd, content)
}

// ---------------------------------------------------------------------------
// Laws
// ---------------------------------------------------------------------------

/// A query is spelled out in its phrase character by character, each as it is, but for
/// quotation marks, which are doubled.
pub proof fn law_phrases_spell_queries(a: Seq<char>, b: Seq<char>, c: char)
    ensures
        marks_doubled(a + b) == marks_doubled(a) + marks_doubled(b),
        c != '"' ==> marks_doubled(seq![c]) == seq![c],
        marks_doubled(seq!['"']) == seq!['"', '"'],
    decreases b.len(),
{
    lemma_one_mark(c);
    lemma_one_mark('"');
    if b.len() == 0 {
        assert(a + b =~= a);
        assert(marks_doubled(a) + marks_doubled(b) =~= marks_doubled(a));
    } else {
        law_phrases_spell_queries(a, b.drop_last(), c);
        assert((a + b).drop_last() =~= a + b.drop_last());
        assert(marks_doubled(a + b) =~= marks_doubled(a) + marks_doubled(b));
    }
}

proof fn lemma_one_mark(c: char)
    ensures
        marks_doubled(seq![c]) == (if c == '"' {
            seq!['"', '"']
        } else {
            seq![c]
        }),
{
    assert(seq![c].drop_last() =~= Seq::empty());
    assert(marks_doubled(seq![c].drop_last()) =~= Seq::empty());
    assert(marks_doubled(seq![c]) =~= if c == '"' {
        seq!['"', '"']
    } else {
        seq![c]
    });
}

/// A row of a repository that has a group adds its file to the sample, while there is room;
/// what the group says of its repository stays, and so do all other groups.
pub proof fn law_files_join_their_group(rows: Seq<RowView>, row: RowView, k: int, max: int, cap: nat)
    requires
        0 <= k < grouped(rows, max, cap).len(),
        grouped(rows, max, cap)[k].0.repo_id == row.0.repo_id,
    ensures
        ({
            let before = grouped(rows, max, cap);
            let after = grouped(rows.push(row), max, cap);
            &&& after.len() == before.len()
            &&& after[k].0 == before[k].0
            &&& before[k].1.len() < cap ==> after[k].1 == before[k].1.push(row.1)
            &&& before[k].1.len() >= cap ==> after[k].1 == before[k].1
            &&& forall|i: int|
                0 <= i < before.len() && i != k ==> #[trigger] after[i] == before[i]
        }),
{
    lemma_row_joins(rows, row, k, max, cap);
}

/// The first row of a repository starts its group, behind all others and with what the row
/// says, while there is room for one; where there is none, nothing changes. Without rows
/// there are no groups.
pub proof fn law_first_files_start_groups(rows: Seq<RowView>, row: RowView, max: int, cap: nat)
    requires
        forall|k: int|
            0 <= k < grouped(rows, max, cap).len() ==> (#[trigger] grouped(
                rows,
                max,
                cap,
            )[k]).0.repo_id != row.0.repo_id,
    ensures
        ({
            let before = grouped(rows, max, cap);
            let after = grouped(rows.push(row), max, cap);
            &&& before.len() < max && cap > 0 ==> after == before.push((row.0, seq![row.1]))
            &&& before.len() < max && cap == 0 ==> after == before.push((row.0, Seq::empty()))
            &&& before.len() >= max ==> after == before
        }),
        grouped(Seq::empty(), max, cap).len() == 0,
{
    lemma_row_starts(rows, row, max, cap);
}

/// Each row goes to one of the two lists, with its id, name and path: to those mentioned
/// where it was matched by what the session says, and to those worked in otherwise.
pub proof fn law_rows_go_to_one_list(rows: Seq<MatchRow>, row: MatchRow)
    ensures
        ({
            let (worked, told) = (gather(rows, link_if(false)), gather(rows, link_if(true)));
            let more = rows.push(row);
            let link = (row.repo_id, row.repo_name@, row.repo_path@);
            &&& row.match_type@ == "content_mention"@ ==> gather(more, link_if(false)) == worked
                && gather(more, link_if(true)) == told.push(link)
            &&& row.match_type@ != "content_mention"@ ==> gather(more, link_if(false))
                == worked.push(link) && gather(more, link_if(true)) == told
        }),
{
}

} // verus!
