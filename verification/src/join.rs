//! The repository that a session's working directory belongs to.

use crate::paths::{
    canonical, components, depth_of, law_below_is_deeper, law_inside_is_below,
    law_what_lies_below_is_inside, path_starts_with, starts_with_path,
};
use crate::text::{chars_of, has_prefix, lowercase, lowercased, starts_with, str_eq};
use vstd::prelude::*;
use vstd::string::StringExecFns;

verus! {

/// Whether a path is another, or lies inside it: by their components or, where file
/// names differ in case, by their text in lower case.
pub open spec fn within(ancestor: Seq<char>, path: Seq<char>) -> bool {
    let (a, d) = (lowercased(ancestor), lowercased(path));
    ||| path_starts_with(path, ancestor)
    ||| d == a
    ||| has_prefix(d, a + "/"@)
    ||| has_prefix(d, a + "\\"@)
}

/// Whether a path is another, or lies inside it.
pub fn is_ancestor_or_equal(ancestor: &str, descendant: &str) -> (out: bool)
    ensures
        out == within(ancestor@, descendant@),
{
    let ac = chars_of(ancestor);
    let dc = chars_of(descendant);
    if starts_with_path(dc.as_slice(), ac.as_slice()) {
        return true;
    }
    let a = lowercase(ancestor);
    let d = lowercase(descendant);
    if str_eq(d.as_str(), a.as_str()) {
        return true;
    }
    let lower = chars_of(d.as_str());
    let mut slash = a.clone();
    slash.append("/");
    let mut backslash = a.clone();
    backslash.append("\\");
    starts_with(lower.as_slice(), slash.as_str()) || starts_with(
        lower.as_slice(),
        backslash.as_str(),
    )
}

/// The repositories by id and path.
pub open spec fn placed(repos: Seq<(i64, String)>) -> Seq<(i64, Seq<char>)> {
    repos.map_values(|r: (i64, String)| (r.0, r.1@))
}

/// Whether the repository at index `k` is the one that a working directory belongs
/// to: it holds the directory, none that does is deeper, and of those as deep it is
/// the first.
pub open spec fn belongs(cwd: Seq<char>, repos: Seq<(i64, Seq<char>)>, k: int) -> bool {
    &&& 0 <= k < repos.len()
    &&& within(repos[k].1, cwd)
    &&& forall|j: int|
        0 <= j < repos.len() && within((#[trigger] repos[j]).1, cwd) ==> components(
            repos[j].1,
        ).len() <= components(repos[k].1).len()
    &&& forall|j: int|
        0 <= j < k && within((#[trigger] repos[j]).1, cwd) ==> components(repos[j].1).len()
            < components(repos[k].1).len()
}

/// The id of the repository that a working directory belongs to: the longest path
/// that is the directory or an ancestor of it, and of several as long the first.
/// Both sides are canonical paths.
pub fn best_repo_for_cwd(cwd: &str, repos: &Vec<(i64, String)>) -> (out: Option<i64>)
    ensures
        match out {
            Some(id) => exists|k: int| #[trigger]
                belongs(cwd@, placed(repos@), k) && placed(repos@)[k].0 == id,
            None => forall|j: int|
                0 <= j < repos@.len() ==> !within((#[trigger] placed(repos@)[j]).1, cwd@),
        },
{
    let ghost all = placed(repos@);
    let mut best: Option<(usize, i64)> = None;
    let ghost mut at: int = -1;
    let mut i: usize = 0;
    while i < repos.len()
        invariant
            i <= repos@.len(),
            all == placed(repos@),
            best is None ==> forall|j: int| 0 <= j < i ==> !within((#[trigger] all[j]).1, cwd@),
            best matches Some((depth, id)) ==> {
                &&& 0 <= at < i
                &&& all[at].0 == id
                &&& depth == components(all[at].1).len()
                &&& within(all[at].1, cwd@)
                &&& forall|j: int|
                    0 <= j < i && within((#[trigger] all[j]).1, cwd@) ==> components(
                        all[j].1,
                    ).len() <= depth
                &&& forall|j: int|
                    0 <= j < at && within((#[trigger] all[j]).1, cwd@) ==> components(
                        all[j].1,
                    ).len() < depth
            },
        decreases repos@.len() - i,
    {
        let (id, path) = (repos[i].0, repos[i].1.as_str());
        assert(all[i as int] == (id, path@));
        if is_ancestor_or_equal(path, cwd) {
            let chars = chars_of(path);
            let depth: usize = depth_of(chars.as_slice());
            let deeper = match best {
                Some((known, _)) => known < depth,
                None => true,
            };
            if deeper {
                best = Some((depth, id));
                proof {
                    at = i as int;
                }
            }
        }
        i = i + 1;
    }
    match best {
        Some((_, id)) => {
            assert(belongs(cwd@, all, at));
            Some(id)
        },
        None => None,
    }
}

/// A working directory belongs to one repository of a list at most.
pub proof fn law_belongs_to_one(cwd: Seq<char>, repos: Seq<(i64, Seq<char>)>, a: int, b: int)
    requires
        belongs(cwd, repos, a),
        belongs(cwd, repos, b),
    ensures
        a == b,
{
    assert(within(repos[a].1, cwd));
    assert(within(repos[b].1, cwd));
    if a < b {
        assert(components(repos[a].1).len() < components(repos[b].1).len());
    } else if b < a {
        assert(components(repos[b].1).len() < components(repos[a].1).len());
    }
}

/// The directory of a repository, and every path inside it, belongs to a repository.
pub proof fn law_inside_is_joined(cwd: Seq<char>, repos: Seq<(i64, Seq<char>)>, k: int)
    requires
        0 <= k < repos.len(),
        path_starts_with(cwd, repos[k].1),
    ensures
        exists|j: int| #[trigger] belongs(cwd, repos, j),
{
    lemma_some_belongs(cwd, repos, k, repos.len() as int);
}

/// Among the first repositories of a list one holds the directory, if any does, and is
/// the deepest and the first.
proof fn lemma_some_belongs(cwd: Seq<char>, repos: Seq<(i64, Seq<char>)>, k: int, n: int)
    requires
        0 <= k < n <= repos.len(),
        within(repos[k].1, cwd),
    ensures
        exists|j: int| #[trigger] belongs(cwd, repos.take(n), j),
        n == repos.len() ==> exists|j: int| #[trigger] belongs(cwd, repos, j),
    decreases n,
{
    let part = repos.take(n);
    if exists|i: int| 0 <= i < n - 1 && within((#[trigger] repos[i]).1, cwd) {
        let i = choose|i: int| 0 <= i < n - 1 && within((#[trigger] repos[i]).1, cwd);
        lemma_some_belongs(cwd, repos, i, n - 1);
        let before = repos.take(n - 1);
        let j = choose|j: int| #[trigger] belongs(cwd, before, j);
        assert(before[j] == repos[j]);
        assert forall|m: int| 0 <= m < n - 1 implies #[trigger] part[m] == before[m] by {}
        let last = repos[n - 1].1;
        if within(last, cwd) && components(last).len() > components(repos[j].1).len() {
            assert(belongs(cwd, part, n - 1)) by {
                assert forall|m: int| 0 <= m < part.len() && within(
                    (#[trigger] part[m]).1,
                    cwd,
                ) implies components(part[m].1).len() <= components(part[n - 1].1).len() by {
                    if m < n - 1 {
                        assert(within(before[m].1, cwd));
                    }
                }
                assert forall|m: int| 0 <= m < n - 1 && within(
                    (#[trigger] part[m]).1,
                    cwd,
                ) implies components(part[m].1).len() < components(part[n - 1].1).len() by {
                    assert(within(before[m].1, cwd));
                }
            }
        } else {
            assert(belongs(cwd, part, j)) by {
                assert forall|m: int| 0 <= m < part.len() && within(
                    (#[trigger] part[m]).1,
                    cwd,
                ) implies components(part[m].1).len() <= components(part[j].1).len() by {
                    if m < n - 1 {
                        assert(within(before[m].1, cwd));
                    }
                }
                assert forall|m: int| 0 <= m < j && within(
                    (#[trigger] part[m]).1,
                    cwd,
                ) implies components(part[m].1).len() < components(part[j].1).len() by {
                    assert(within(before[m].1, cwd));
                }
            }
        }
    } else {
        assert(k == n - 1);
        assert(belongs(cwd, part, k)) by {
            assert forall|m: int| 0 <= m < part.len() && within(
                (#[trigger] part[m]).1,
                cwd,
            ) implies components(part[m].1).len() <= components(part[k].1).len() by {
                assert(part[m] == repos[m]);
            }
            assert forall|m: int| 0 <= m < k && within(
                (#[trigger] part[m]).1,
                cwd,
            ) implies components(part[m].1).len() < components(part[k].1).len() by {
                assert(part[m] == repos[m]);
            }
        }
    }
    if n == repos.len() {
        assert(part =~= repos);
    }
}

// ---------------------------------------------------------------------------
// Laws
// ---------------------------------------------------------------------------

/// Whether a path is another, or goes on right behind it with a separator.
pub open spec fn goes_on_behind(path: Seq<char>, dir: Seq<char>) -> bool {
    ||| path == dir
    ||| path.len() > dir.len() && path.take(dir.len() as int) == dir && (path[dir.len() as int] == '/'
        || path[dir.len() as int] == '\\')
}

/// A repository holds a working directory only where the directory is the repository's
/// path or goes on right behind it with a separator, as they are spelled or in lower case:
/// a directory beside a repository, whose name merely begins with the repository's name, is
/// not held by it.
pub proof fn law_what_lies_beside_is_not_joined(dir: Seq<char>, cwd: Seq<char>)
    requires
        canonical(dir),
        canonical(cwd),
        dir != seq!['/'],
        within(dir, cwd),
    ensures
        goes_on_behind(cwd, dir) || goes_on_behind(lowercased(cwd), lowercased(dir)),
{
    reveal_strlit("/");
    reveal_strlit("\\");
    let (a, d) = (lowercased(dir), lowercased(cwd));
    if path_starts_with(cwd, dir) {
        law_inside_is_below(cwd, dir);
        if cwd != dir {
            lemma_prefix_goes_on(cwd, dir, '/');
        }
    } else if d != a {
        assert("/"@ =~= seq!['/']);
        assert("\\"@ =~= seq!['\\']);
        if has_prefix(d, a + "/"@) {
            lemma_prefix_goes_on(d, a, '/');
        } else {
            lemma_prefix_goes_on(d, a, '\\');
        }
    }
}

proof fn lemma_prefix_goes_on(path: Seq<char>, dir: Seq<char>, c: char)
    requires
        has_prefix(path, dir + seq![c]),
    ensures
        path.len() > dir.len(),
        path.take(dir.len() as int) == dir,
        path[dir.len() as int] == c,
{
    let whole = dir + seq![c];
    let n = dir.len() as int;
    assert(path.take(n) =~= whole.take(n));
    assert(whole.take(n) =~= dir);
    assert(path[n] == path.take(n + 1)[n]);
}

/// The directory of a repository, and whatever lies below it, belongs to a repository.
pub proof fn law_what_lies_below_is_joined(
    repos: Seq<(i64, Seq<char>)>,
    k: int,
    rest: Seq<char>,
)
    requires
        0 <= k < repos.len(),
        repos[k].1.len() > 0,
    ensures
        within(repos[k].1, repos[k].1),
        within(repos[k].1, repos[k].1 + seq!['/'] + rest),
        exists|j: int| #[trigger] belongs(repos[k].1, repos, j),
        exists|j: int| #[trigger] belongs(repos[k].1 + seq!['/'] + rest, repos, j),
{
    law_what_lies_below_is_inside(repos[k].1, rest);
    law_inside_is_joined(repos[k].1, repos, k);
    law_inside_is_joined(repos[k].1 + seq!['/'] + rest, repos, k);
}

/// Of a repository and another inside it, a working directory inside both does not belong
/// to the outer one.
pub proof fn law_the_innermost_is_joined(
    cwd: Seq<char>,
    repos: Seq<(i64, Seq<char>)>,
    outer: int,
    inner: int,
    rest: Seq<char>,
)
    requires
        0 <= outer < repos.len(),
        0 <= inner < repos.len(),
        repos[outer].1.len() > 0,
        rest.len() > 0,
        repos[inner].1 == repos[outer].1 + seq!['/'] + rest,
        canonical(repos[inner].1),
        cwd == repos[inner].1 || has_prefix(cwd, repos[inner].1 + seq!['/']),
    ensures
        !belongs(cwd, repos, outer),
{
    let dir = repos[inner].1;
    law_below_is_deeper(repos[outer].1, rest);
    if cwd == dir {
        law_what_lies_below_is_inside(dir, Seq::empty());
    } else {
        let more = cwd.skip(dir.len() as int + 1);
        assert(cwd =~= dir + seq!['/'] + more) by {
            lemma_prefix_goes_on(cwd, dir, '/');
        }
        law_what_lies_below_is_inside(dir, more);
    }
    assert(within(repos[inner].1, cwd));
}

/// A working directory belongs to a repository of the list, by which it is held.
pub proof fn law_belongs_to_its_holder(cwd: Seq<char>, repos: Seq<(i64, Seq<char>)>, k: int)
    requires
        belongs(cwd, repos, k),
    ensures
        0 <= k < repos.len(),
        within(repos[k].1, cwd),
{
}

} // verus!
