//! Activity of a repository: one score over every dimension that is watched, and
//! the order of the repository list that follows from it.
//!
//! With the value `x` of a repository in a dimension, and the norm `m` of that
//! dimension, the score is the sum of `ln(1 + x / m)` over all dimensions. The norm
//! is the median of the values that are not zero, so that a typical active
//! repository gets `ln 2` of a dimension and one giant does not squash the rest.
//! Breadth is rewarded, a dimension without any activity contributes nothing, and
//! large values have diminishing returns.
//!
//! The sum of logarithms grows with the product of the fractions `1 + x / m`, so the
//! order of two repositories is decided exactly, on integers: with twice the median
//! as `n` a fraction is `(n + 2x) / n`, and the denominators are the same for every
//! repository of a list.

use crate::db::Repo;
use crate::order::{
    ascending, lemma_ascending, lemma_place, lemma_text_order, lemma_text_order_chains, place, sorted,
    stands_before, text_before, wholes,
};
use crate::product::{lemma_product_grows, less, multiplied, naturals, number, product};
use crate::seqs::{count_of, gather, group_list_steps};
use crate::text::{chars_of, lowercase, lowercased, opt_is, opt_text};
use vstd::prelude::*;

verus! {

broadcast use group_list_steps;

/// Three kinds of signal, each with its own pace and cost: past activity, what the
/// working tree looks like now, and what a remote service thinks.
#[derive(Debug, Clone, Copy, PartialEq, Eq, Structural)]
pub enum Category {
    Historical,
    LocalState,
    RemoteState,
}

/// What an activity dimension reads off a repository.
#[derive(Debug, Clone, Copy, PartialEq, Eq, Structural)]
pub enum AttrFn {
    Sessions,
    Commits,
    Churn,
    Authors,
    Uncommitted,
    CiFailing,
    ReviewsWaiting,
    OpenPrs,
}

impl AttrFn {
    /// The value of a repository in this dimension.
    pub open spec fn of(self, r: Repo) -> int {
        match self {
            AttrFn::Sessions => r.session_count as int,
            AttrFn::Commits => r.commits_30d as int,
            AttrFn::Churn => r.loc_churn_30d as int,
            AttrFn::Authors => r.authors_30d as int,
            AttrFn::Uncommitted => r.untracked_files + r.modified_files,
            AttrFn::CiFailing => if opt_text(r.ci_status) == Some("failure"@) {
                1
            } else {
                0
            },
            AttrFn::ReviewsWaiting => r.prs_awaiting_my_review as int,
            AttrFn::OpenPrs => r.open_prs as int,
        }
    }

    /// The value of a repository in this dimension.
    pub fn value(&self, r: &Repo) -> (v: i128)
        ensures
            v == self.of(*r),
            -0x1_0000_0000_0000_0000 <= v < 0x1_0000_0000_0000_0000,
    {
        match self {
            AttrFn::Sessions => r.session_count as i128,
            AttrFn::Commits => r.commits_30d as i128,
            AttrFn::Churn => r.loc_churn_30d as i128,
            AttrFn::Authors => r.authors_30d as i128,
            AttrFn::Uncommitted => r.untracked_files as i128 + r.modified_files as i128,
            AttrFn::CiFailing => if opt_is(&r.ci_status, "failure") {
                1
            } else {
                0
            },
            AttrFn::ReviewsWaiting => r.prs_awaiting_my_review as i128,
            AttrFn::OpenPrs => r.open_prs as i128,
        }
    }
}

/// One activity dimension: a stable key, its category, and what it reads.
pub struct Attr {
    pub key: &'static str,
    pub category: Category,
    pub get: AttrFn,
}

/// What the watched dimensions read, in their order.
pub open spec fn dimensions() -> Seq<AttrFn> {
    seq![
        AttrFn::Sessions,
        AttrFn::Commits,
        AttrFn::Churn,
        AttrFn::Authors,
        AttrFn::Uncommitted,
        AttrFn::CiFailing,
        AttrFn::ReviewsWaiting,
        AttrFn::OpenPrs,
    ]
}

/// The stable key of a dimension.
pub open spec fn key_of(get: AttrFn) -> Seq<char> {
    match get {
        AttrFn::Sessions => "sessions"@,
        AttrFn::Commits => "commits_30d"@,
        AttrFn::Churn => "loc_churn_30d"@,
        AttrFn::Authors => "authors_30d"@,
        AttrFn::Uncommitted => "uncommitted_files"@,
        AttrFn::CiFailing => "ci_failing"@,
        AttrFn::ReviewsWaiting => "prs_awaiting_my_review"@,
        AttrFn::OpenPrs => "open_prs"@,
    }
}

/// The category of a dimension.
pub open spec fn category_of(get: AttrFn) -> Category {
    match get {
        AttrFn::Sessions | AttrFn::Commits | AttrFn::Churn | AttrFn::Authors => Category::Historical,
        AttrFn::Uncommitted => Category::LocalState,
        AttrFn::CiFailing | AttrFn::ReviewsWaiting | AttrFn::OpenPrs => Category::RemoteState,
    }
}

/// Every dimension that is watched.
pub fn attrs() -> (out: Vec<Attr>)
    ensures
        out@.map_values(|a: Attr| a.get) == dimensions(),
        forall|i: int|
            0 <= i < out@.len() ==> (#[trigger] out@[i]).key@ == key_of(out@[i].get)
                && out@[i].category == category_of(out@[i].get),
{
    let mut out: Vec<Attr> = Vec::new();
    out.push(Attr { key: "sessions", category: Category::Historical, get: AttrFn::Sessions });
    out.push(Attr { key: "commits_30d", category: Category::Historical, get: AttrFn::Commits });
    out.push(Attr { key: "loc_churn_30d", category: Category::Historical, get: AttrFn::Churn });
    out.push(Attr { key: "authors_30d", category: Category::Historical, get: AttrFn::Authors });
    out.push(
        Attr {
            key: "uncommitted_files",
            category: Category::LocalState,
            get: AttrFn::Uncommitted,
        },
    );
    out.push(Attr { key: "ci_failing", category: Category::RemoteState, get: AttrFn::CiFailing });
    out.push(
        Attr {
            key: "prs_awaiting_my_review",
            category: Category::RemoteState,
            get: AttrFn::ReviewsWaiting,
        },
    );
    out.push(Attr { key: "open_prs", category: Category::RemoteState, get: AttrFn::OpenPrs });
    assert(out@.map_values(|a: Attr| a.get) =~= dimensions());
    out
}

// ---------------------------------------------------------------------------
// Norms and scores
// ---------------------------------------------------------------------------

/// The value of a repository in a dimension, where it is positive.
pub open spec fn positive(get: AttrFn) -> spec_fn(Repo) -> Option<int> {
    |r: Repo|
        if get.of(r) > 0 {
            Some(get.of(r))
        } else {
            None
        }
}

/// Twice the median of a list of integers; 0 of an empty one.
pub open spec fn twice_median(values: Seq<int>) -> int {
    let s = ascending(values);
    let n = s.len() as int;
    if n == 0 {
        0
    } else if n % 2 == 1 {
        2 * s[n / 2]
    } else {
        s[n / 2 - 1] + s[n / 2]
    }
}

/// Twice the norm of a dimension: twice the median of the positive values.
pub open spec fn norm(repos: Seq<Repo>, get: AttrFn) -> int {
    twice_median(gather(repos, positive(get)))
}

/// Twice the norm of each dimension.
pub open spec fn norms(repos: Seq<Repo>) -> Seq<int> {
    dimensions().map_values(|get: AttrFn| norm(repos, get))
}

/// A norm is positive exactly where a repository has a positive value.
proof fn lemma_norm(repos: Seq<Repo>, get: AttrFn)
    ensures
        0 <= norm(repos, get) < 0x2_0000_0000_0000_0000,
        forall|r: Repo| repos.contains(r) && #[trigger] get.of(r) > 0 ==> norm(repos, get) > 0,
{
    let values = gather(repos, positive(get));
    lemma_positives(repos, get);
    lemma_ascending(values);
    let s = ascending(values);
    let n = s.len() as int;
    if n > 0 {
        assert(values.contains(s[n / 2]));
        if n % 2 == 0 {
            assert(values.contains(s[n / 2 - 1]));
        }
    }
}

/// What the positive values of a list are.
proof fn lemma_positives(repos: Seq<Repo>, get: AttrFn)
    ensures
        forall|v: int| #[trigger]
            gather(repos, positive(get)).contains(v) ==> 0 < v < 0x1_0000_0000_0000_0000,
        forall|r: Repo|
            repos.contains(r) && #[trigger] get.of(r) > 0 ==> gather(repos, positive(get)).len() > 0,
    decreases repos.len(),
{
    if repos.len() > 0 {
        let rest = repos.drop_last();
        let r = repos.last();
        lemma_positives(rest, get);
        let before = gather(rest, positive(get));
        let now = gather(repos, positive(get));
        assert forall|v: int| #[trigger] now.contains(v) implies 0 < v < 0x1_0000_0000_0000_0000 by {
            if get.of(r) > 0 {
                assert(now == before.push(get.of(r)));
                let k = choose|k: int| 0 <= k < now.len() && now[k] == v;
                if k < before.len() {
                    assert(before.contains(before[k]));
                }
            } else {
                assert(before.contains(v));
            }
        }
        assert forall|q: Repo| repos.contains(q) && #[trigger] get.of(q) > 0 implies now.len() > 0 by {
            let k = choose|k: int| 0 <= k < repos.len() && repos[k] == q;
            if k < rest.len() {
                assert(rest[k] == q);
                assert(rest.contains(q));
            }
        }
    }
}

/// Twice the median of the positive values of a dimension.
fn normaliser(repos: &Vec<Repo>, get: AttrFn) -> (out: u128)
    ensures
        out == norm(repos@, get),
        out < 0x2_0000_0000_0000_0000,
{
    let mut values: Vec<i128> = Vec::new();
    let mut i: usize = 0;
    assert(wholes(values@) =~= gather(repos@.take(0), positive(get)));
    while i < repos.len()
        invariant
            i <= repos@.len(),
            wholes(values@) == gather(repos@.take(i as int), positive(get)),
        decreases repos@.len() - i,
    {
        let v: i128 = get.value(&repos[i]);
        let ghost before = values@;
        assert(repos@.take(i + 1) =~= repos@.take(i as int).push(repos@[i as int]));
        if v > 0 {
            values.push(v);
            assert(wholes(values@) =~= wholes(before).push(v as int));
        }
        i = i + 1;
    }
    assert(repos@.take(i as int) =~= repos@);
    let s = sorted(&values);
    let n: usize = s.len();
    proof {
        lemma_norm(repos@, get);
        lemma_positives(repos@, get);
        lemma_ascending(wholes(values@));
        assert(forall|k: int| 0 <= k < n ==> s@[k] == #[trigger] wholes(s@)[k]);
        if n > 0 {
            assert(wholes(values@).contains(wholes(s@)[n as int / 2]));
            if n % 2 == 0 {
                assert(wholes(values@).contains(wholes(s@)[n as int / 2 - 1]));
            }
        }
    }
    if n == 0 {
        0
    } else if n % 2 == 1 {
        assert(s@[n as int / 2] == wholes(s@)[n as int / 2]);
        (2 * s[n / 2]) as u128
    } else {
        assert(s@[n as int / 2] == wholes(s@)[n as int / 2]);
        assert(s@[n as int / 2 - 1] == wholes(s@)[n as int / 2 - 1]);
        (s[n / 2 - 1] + s[n / 2]) as u128
    }
}

/// The integers that a list of norms holds.
pub open spec fn norm_views(ns: Seq<u128>) -> Seq<int> {
    ns.map_values(|n: u128| n as int)
}

/// The norm of each dimension over a list of repositories, doubled so that it is
/// an integer: twice the median of the values that are not zero, and 0 where no
/// repository has any.
pub fn normalisers(repos: &Vec<Repo>) -> (out: Vec<u128>)
    ensures
        norm_views(out@) == norms(repos@),
        forall|i: int| 0 <= i < out@.len() ==> #[trigger] out@[i] < 0x2_0000_0000_0000_0000,
{
    let list = attrs();
    let mut out: Vec<u128> = Vec::new();
    let mut i: usize = 0;
    assert(norm_views(out@) =~= norms(repos@).take(0));
    while i < list.len()
        invariant
            i <= list@.len(),
            list@.map_values(|a: Attr| a.get) == dimensions(),
            norm_views(out@) == norms(repos@).take(i as int),
            forall|k: int| 0 <= k < out@.len() ==> #[trigger] out@[k] < 0x2_0000_0000_0000_0000,
        decreases list@.len() - i,
    {
        let ghost before = out@;
        assert(list@.map_values(|a: Attr| a.get)[i as int] == list@[i as int].get);
        assert(list@.len() == dimensions().len());
        let n: u128 = normaliser(repos, list[i].get);
        out.push(n);
        assert(norm_views(out@) =~= norm_views(before).push(n as int));
        assert(norms(repos@).take(i + 1) =~= norms(repos@).take(i as int).push(n as int));
        i = i + 1;
    }
    assert(list@.len() == norms(repos@).len());
    assert(norms(repos@).take(i as int) =~= norms(repos@));
    out
}

/// What a dimension contributes: the fraction `1 + x / m`, for the value `x` and
/// the doubled norm `2m`; 1 where there is no norm. The score adds its logarithm.
pub open spec fn share(norm: int, value: int) -> (int, int) {
    if norm <= 0 {
        (1, 1)
    } else {
        (norm + 2 * value, norm)
    }
}

/// What each dimension contributes to a repository's score.
pub open spec fn shares(r: Repo, ns: Seq<int>) -> Seq<(int, int)> {
    Seq::new(dimensions().len(), |i: int| share(ns[i], dimensions()[i].of(r)))
}

/// Whether the score of a repository is defined: each share is the fraction of
/// two integers that are not negative.
pub open spec fn scorable(r: Repo, ns: Seq<int>) -> bool {
    forall|i: int| 0 <= i < dimensions().len() ==> (#[trigger] shares(r, ns)[i]).0 >= 0
}

/// The fractions that a score holds.
pub open spec fn share_views(s: Seq<(u128, u128)>) -> Seq<(int, int)> {
    s.map_values(|p: (u128, u128)| (p.0 as int, p.1 as int))
}

/// The score of a repository, as the fractions whose logarithms it adds: one for
/// each dimension, numerator and denominator.
pub fn score(repo: &Repo, norms: &Vec<u128>) -> (out: Vec<(u128, u128)>)
    requires
        norms@.len() == dimensions().len(),
        forall|i: int| 0 <= i < norms@.len() ==> #[trigger] norms@[i] < 0x2_0000_0000_0000_0000,
        scorable(*repo, norm_views(norms@)),
    ensures
        share_views(out@) == shares(*repo, norm_views(norms@)),
        forall|i: int| 0 <= i < out@.len() ==> (#[trigger] out@[i]).0 < 0x8_0000_0000_0000_0000,
{
    let list = attrs();
    let mut out: Vec<(u128, u128)> = Vec::new();
    let mut i: usize = 0;
    let ghost all = shares(*repo, norm_views(norms@));
    assert(share_views(out@) =~= all.take(0));
    while i < list.len()
        invariant
            i <= list@.len(),
            list@.map_values(|a: Attr| a.get) == dimensions(),
            norms@.len() == dimensions().len(),
            forall|k: int|
                0 <= k < norms@.len() ==> #[trigger] norms@[k] < 0x2_0000_0000_0000_0000,
            all == shares(*repo, norm_views(norms@)),
            scorable(*repo, norm_views(norms@)),
            share_views(out@) == all.take(i as int),
            forall|k: int|
                0 <= k < out@.len() ==> (#[trigger] out@[k]).0 < 0x8_0000_0000_0000_0000,
        decreases list@.len() - i,
    {
        assert(list@.map_values(|a: Attr| a.get)[i as int] == list@[i as int].get);
        assert(list@.len() == dimensions().len());
        let v: i128 = list[i].get.value(repo);
        let n: u128 = norms[i];
        assert(norm_views(norms@)[i as int] == n);
        assert(all[i as int] == share(n as int, v as int));
        assert(shares(*repo, norm_views(norms@))[i as int].0 >= 0);
        let part: (u128, u128) = if n == 0 {
            (1, 1)
        } else {
            ((n as i128 + 2 * v) as u128, n)
        };
        let ghost before = out@;
        out.push(part);
        assert(share_views(out@) =~= share_views(before).push((part.0 as int, part.1 as int)));
        assert(all.take(i + 1) =~= all.take(i as int).push(all[i as int]));
        i = i + 1;
    }
    assert(list@.len() == all.len());
    assert(all.take(i as int) =~= all);
    out
}

// ---------------------------------------------------------------------------
// Ranking
// ---------------------------------------------------------------------------

/// Whether something tangible waits for the user: a failing default-branch run, a
/// dirty working tree, an operation in progress, or a detached head.
pub open spec fn needs_action(r: Repo) -> bool {
    ||| opt_text(r.ci_status) == Some("failure"@)
    ||| r.untracked_files + r.modified_files > 0
    ||| r.in_progress_op is Some
    ||| opt_text(r.head_ref) == Some("detached"@)
}

/// Whether something tangible waits for the user.
pub fn is_action_required(r: &Repo) -> (out: bool)
    ensures
        out == needs_action(*r),
{
    opt_is(&r.ci_status, "failure") || (r.untracked_files as i128 + r.modified_files as i128) > 0
        || r.in_progress_op.is_some() || opt_is(&r.head_ref, "detached")
}

/// Whether every dimension of a repository reads zero.
pub open spec fn dormant(r: Repo) -> bool {
    forall|i: int| 0 <= i < dimensions().len() ==> (#[trigger] dimensions()[i]).of(r) == 0
}

/// Whether every dimension of a repository reads zero.
pub fn is_dormant(repo: &Repo) -> (out: bool)
    ensures
        out == dormant(*repo),
{
    let list = attrs();
    let mut i: usize = 0;
    while i < list.len()
        invariant
            i <= list@.len(),
            list@.map_values(|a: Attr| a.get) == dimensions(),
            forall|k: int| 0 <= k < i ==> (#[trigger] dimensions()[k]).of(*repo) == 0,
        decreases list@.len() - i,
    {
        assert(list@.map_values(|a: Attr| a.get)[i as int] == list@[i as int].get);
        assert(list@.len() == dimensions().len());
        if list[i].get.value(repo) != 0 {
            assert(dimensions()[i as int].of(*repo) != 0);
            return false;
        }
        i = i + 1;
    }
    assert(list@.map_values(|a: Attr| a.get).len() == dimensions().len());
    true
}

/// What decides a repository's place: whether it needs action, the product of the
/// numerators of its score, and its name in lower case.
#[verifier::ext_equal]
pub struct Rank {
    pub action: bool,
    pub points: nat,
    pub name: Seq<char>,
}

/// The numerators of a score.
pub open spec fn numerators(r: Repo, ns: Seq<int>) -> Seq<nat> {
    shares(r, ns).map_values(|p: (int, int)| p.0 as nat)
}

/// The rank of a repository under the given norms.
pub open spec fn rank_of(r: Repo, ns: Seq<int>) -> Rank {
    Rank {
        action: needs_action(r),
        points: product(numerators(r, ns)),
        name: lowercased(r.name@),
    }
}

/// Whether one rank goes ahead of another: what needs action first, the greater
/// score first, and by name at last.
pub open spec fn ahead(a: Rank, b: Rank) -> bool {
    if a.action != b.action {
        a.action
    } else if a.points != b.points {
        a.points > b.points
    } else {
        text_before(a.name, b.name)
    }
}

/// Of two ranks one goes ahead of the other, or they are the same, and never both.
pub proof fn lemma_ahead(a: Rank, b: Rank)
    ensures
        ahead(a, b) ==> !ahead(b, a),
        (ahead(a, b) || ahead(b, a)) <==> a != b,
{
    lemma_text_order(a.name, b.name);
}

/// What does not go ahead of a rank does not go ahead of what the rank gives way
/// to.
proof fn lemma_ahead_chains(a: Rank, b: Rank, c: Rank)
    requires
        !ahead(b, a),
        !ahead(c, b),
    ensures
        !ahead(c, a),
{
    lemma_ahead(a, b);
    lemma_ahead(b, c);
    lemma_ahead(a, c);
    if ahead(c, a) && a != b && b != c {
        if text_before(a.name, b.name) && text_before(b.name, c.name) {
            lemma_text_order_chains(a.name, b.name, c.name);
        }
    }
}

/// The repositories of a rank.
pub open spec fn of_rank(rank: Rank, ns: Seq<int>) -> spec_fn(Repo) -> bool {
    |r: Repo| rank_of(r, ns) == rank
}

/// Whether no repository stands behind one that it goes ahead of.
pub open spec fn ranked(repos: Seq<Repo>, ns: Seq<int>) -> bool {
    forall|i: int, j: int|
        0 <= i < j < repos.len() ==> !ahead(
            rank_of(#[trigger] repos[j], ns),
            rank_of(#[trigger] repos[i], ns),
        )
}

/// Whether the scores of a list are defined.
pub open spec fn rankable(repos: Seq<Repo>) -> bool {
    forall|i: int| 0 <= i < repos.len() ==> scorable(#[trigger] repos[i], norms(repos))
}

/// What a filter makes of a list with an item put in, behind which no other
/// passes the filter that it passes.
proof fn lemma_filter_insert(s: Seq<Repo>, pos: int, x: Repo, p: spec_fn(Repo) -> bool)
    requires
        0 <= pos <= s.len(),
        p(x) ==> forall|j: int| pos <= j < s.len() ==> !p(#[trigger] s[j]),
    ensures
        s.insert(pos, x).filter(p) == (if p(x) {
            s.filter(p).push(x)
        } else {
            s.filter(p)
        }),
    decreases s.len(),
{
    reveal(Seq::filter);
    let all = s.insert(pos, x);
    if pos == s.len() {
        assert(all.drop_last() =~= s);
    } else {
        let rest = s.drop_last();
        assert(all.drop_last() =~= rest.insert(pos, x));
        assert(all.last() == s.last());
        if p(x) {
            assert(!p(s[s.len() - 1]));
            assert forall|j: int| pos <= j < rest.len() implies !p(#[trigger] rest[j]) by {
                assert(rest[j] == s[j]);
            }
        }
        lemma_filter_insert(rest, pos, x, p);
    }
}

/// A repository put in its place keeps a list ranked, and those of its rank in
/// the order in which they came.
proof fn lemma_ranked_insert(s: Seq<Repo>, pos: int, x: Repo, ns: Seq<int>)
    requires
        ranked(s, ns),
        0 <= pos <= s.len(),
        forall|j: int| pos <= j < s.len() ==> ahead(rank_of(x, ns), rank_of(#[trigger] s[j], ns)),
        pos > 0 ==> !ahead(rank_of(x, ns), rank_of(s[pos - 1], ns)),
    ensures
        ranked(s.insert(pos, x), ns),
        forall|k: Rank| #[trigger]
            s.insert(pos, x).filter(of_rank(k, ns)) == s.push(x).filter(of_rank(k, ns)),
{
    let all = s.insert(pos, x);
    assert forall|i: int, j: int| 0 <= i < j < all.len() implies !ahead(
        rank_of(#[trigger] all[j], ns),
        rank_of(#[trigger] all[i], ns),
    ) by {
        if i < pos && j == pos {
            assert(all[i] == s[i]);
            if i < pos - 1 {
                lemma_ahead_chains(
                    rank_of(s[i], ns),
                    rank_of(s[pos - 1], ns),
                    rank_of(x, ns),
                );
            }
        } else if i == pos {
            assert(all[j] == s[j - 1]);
            lemma_ahead(rank_of(x, ns), rank_of(s[j - 1], ns));
        } else {
            let (a, b) = (
                if i < pos {
                    i
                } else {
                    i - 1
                },
                if j < pos {
                    j
                } else {
                    j - 1
                },
            );
            assert(all[i] == s[a] && all[j] == s[b]);
        }
    }
    assert forall|k: Rank| #[trigger]
        all.filter(of_rank(k, ns)) == s.push(x).filter(of_rank(k, ns)) by {
        let p = of_rank(k, ns);
        if p(x) {
            assert forall|j: int| pos <= j < s.len() implies !p(#[trigger] s[j]) by {
                lemma_ahead(rank_of(x, ns), rank_of(s[j], ns));
            }
        }
        lemma_filter_insert(s, pos, x, p);
        lemma_filter_insert(s, s.len() as int, x, p);
        assert(s.push(x) =~= s.insert(s.len() as int, x));
    }
}

/// A rank that can be computed with.
struct Key {
    action: bool,
    digits: Vec<u32>,
    name: Vec<char>,
}

impl View for Key {
    type V = Rank;

    closed spec fn view(&self) -> Rank {
        Rank { action: self.action, points: number(self.digits@), name: self.name@ }
    }
}

/// Computes the rank of a repository.
fn key(repo: &Repo, ns: &Vec<u128>) -> (out: Key)
    requires
        ns@.len() == dimensions().len(),
        forall|i: int| 0 <= i < ns@.len() ==> #[trigger] ns@[i] < 0x2_0000_0000_0000_0000,
        scorable(*repo, norm_views(ns@)),
    ensures
        out@ == rank_of(*repo, norm_views(ns@)),
        out.digits@.len() == 25,
{
    let parts = score(repo, ns);
    let ghost all = shares(*repo, norm_views(ns@));
    let mut tops: Vec<u128> = Vec::new();
    let mut i: usize = 0;
    assert(share_views(parts@).len() == all.len());
    while i < parts.len()
        invariant
            i <= parts@.len(),
            tops@.len() == i,
            forall|k: int| 0 <= k < i ==> #[trigger] tops@[k] == parts@[k].0,
        decreases parts@.len() - i,
    {
        tops.push(parts[i].0);
        i = i + 1;
    }
    proof {
        assert forall|k: int| 0 <= k < tops@.len() implies #[trigger] naturals(tops@)[k]
            == numerators(*repo, norm_views(ns@))[k] by {
            assert(share_views(parts@)[k] == all[k]);
        }
        assert(naturals(tops@) =~= numerators(*repo, norm_views(ns@)));
    }
    let lower = lowercase(repo.name.as_str());
    Key {
        action: is_action_required(repo),
        digits: multiplied(&tops),
        name: chars_of(lower.as_str()),
    }
}

/// Whether one rank goes ahead of another.
fn goes_ahead(a: &Key, b: &Key) -> (out: bool)
    requires
        a.digits@.len() == b.digits@.len(),
    ensures
        out == ahead(a@, b@),
{
    if a.action != b.action {
        a.action
    } else if less(&b.digits, &a.digits) {
        true
    } else if less(&a.digits, &b.digits) {
        false
    } else {
        stands_before(a.name.as_slice(), b.name.as_slice())
    }
}

/// Sorts a list of repositories: those that need action first, the higher score
/// first among those, and by name, in lower case, where scores are the same.
/// Repositories that tie in all three keep their order.
pub fn sort(repos: &mut Vec<Repo>)
    requires
        rankable(old(repos)@),
    ensures
        final(repos)@.to_multiset() == old(repos)@.to_multiset(),
        ranked(final(repos)@, norms(old(repos)@)),
        forall|k: Rank| #[trigger]
            final(repos)@.filter(of_rank(k, norms(old(repos)@))) == old(repos)@.filter(
                of_rank(k, norms(old(repos)@)),
            ),
{
    let norm_list = normalisers(repos);
    let ghost ns = norms(repos@);
    let ghost all = repos@;
    let mut taken: Vec<Repo> = Vec::new();
    std::mem::swap(&mut taken, repos);
    let mut out: Vec<Repo> = Vec::new();
    let mut keys: Vec<Key> = Vec::new();
    assert(all.take(0) =~= out@);
    assert(norm_views(norm_list@).len() == dimensions().len());
    for repo in it: taken
        invariant
            it.seq() == all,
            ns == norms(all),
            rankable(all),
            norm_views(norm_list@) == ns,
            norm_list@.len() == dimensions().len(),
            forall|i: int|
                0 <= i < norm_list@.len() ==> #[trigger] norm_list@[i] < 0x2_0000_0000_0000_0000,
            keys@.len() == out@.len(),
            forall|j: int|
                0 <= j < keys@.len() ==> (#[trigger] keys@[j])@ == rank_of(out@[j], ns)
                    && keys@[j].digits@.len() == 25,
            ranked(out@, ns),
            out@.to_multiset() == all.take(it.index()).to_multiset(),
            forall|k: Rank| #[trigger]
                out@.filter(of_rank(k, ns)) == all.take(it.index()).filter(of_rank(k, ns)),
    {
        let ghost i = it.index();
        assert(all[i] == repo);
        let new = key(&repo, &norm_list);
        let mut pos: usize = keys.len();
        while pos > 0 && goes_ahead(&new, &keys[pos - 1])
            invariant
                pos <= keys@.len(),
                keys@.len() == out@.len(),
                new.digits@.len() == 25,
                new@ == rank_of(repo, ns),
                forall|j: int|
                    0 <= j < keys@.len() ==> (#[trigger] keys@[j])@ == rank_of(out@[j], ns)
                        && keys@[j].digits@.len() == 25,
                forall|j: int|
                    pos <= j < out@.len() ==> ahead(new@, rank_of(#[trigger] out@[j], ns)),
            decreases pos,
        {
            assert(keys@[pos - 1]@ == rank_of(out@[pos - 1], ns));
            pos = pos - 1;
        }
        let ghost before = out@;
        let ghost part = all.take(i);
        proof {
            if pos > 0 {
                assert(keys@[pos - 1]@ == rank_of(out@[pos - 1], ns));
            }
            lemma_ranked_insert(before, pos as int, repo, ns);
            assert(all.take(i + 1) =~= part.push(repo));
            assert forall|k: Rank| #[trigger]
                before.insert(pos as int, repo).filter(of_rank(k, ns)) == all.take(i + 1).filter(
                    of_rank(k, ns),
                ) by {
                reveal(Seq::filter);
                assert(before.filter(of_rank(k, ns)) == part.filter(of_rank(k, ns)));
                assert(before.push(repo).drop_last() =~= before);
                assert(part.push(repo).drop_last() =~= part);
            }
        }
        out.insert(pos, repo);
        keys.insert(pos, new);
        assert(out@.to_multiset() == all.take(i + 1).to_multiset()) by {
            broadcast use vstd::seq_lib::group_to_multiset_ensures;

            assert(out@ == before.insert(pos as int, repo));
            assert(out@.to_multiset() =~= before.to_multiset().insert(repo));
        }
    }
    assert(all.take(all.len() as int) =~= all);
    *repos = out;
}

/// Whether the scores of a list are defined, as they are of counts.
pub fn is_rankable(repos: &Vec<Repo>) -> (out: bool)
    ensures
        out == rankable(repos@),
{
    let list = attrs();
    let ns = normalisers(repos);
    let ghost norm_list = norms(repos@);
    let mut i: usize = 0;
    proof {
        assert(list@.map_values(|a: Attr| a.get).len() == dimensions().len());
        assert(norm_views(ns@).len() == dimensions().len());
    }
    while i < repos.len()
        invariant
            i <= repos@.len(),
            norm_list == norms(repos@),
            norm_views(ns@) == norm_list,
            ns@.len() == dimensions().len(),
            list@.len() == dimensions().len(),
            list@.map_values(|a: Attr| a.get) == dimensions(),
            forall|k: int| 0 <= k < ns@.len() ==> #[trigger] ns@[k] < 0x2_0000_0000_0000_0000,
            forall|k: int| 0 <= k < i ==> scorable(#[trigger] repos@[k], norm_list),
        decreases repos@.len() - i,
    {
        let ghost r = repos@[i as int];
        let mut j: usize = 0;
        while j < list.len()
            invariant
                j <= list@.len(),
                i < repos@.len(),
                r == repos@[i as int],
                norm_list == norms(repos@),
                norm_views(ns@) == norm_list,
                ns@.len() == dimensions().len(),
                list@.len() == dimensions().len(),
                list@.map_values(|a: Attr| a.get) == dimensions(),
                forall|k: int| 0 <= k < ns@.len() ==> #[trigger] ns@[k] < 0x2_0000_0000_0000_0000,
                forall|k: int| 0 <= k < j ==> (#[trigger] shares(r, norm_list)[k]).0 >= 0,
            decreases list@.len() - j,
        {
            assert(list@.map_values(|a: Attr| a.get)[j as int] == list@[j as int].get);
            let v: i128 = list[j].get.value(&repos[i]);
            let n: u128 = ns[j];
            assert(norm_views(ns@)[j as int] == n);
            assert(shares(r, norm_list)[j as int] == share(n as int, v as int));
            if n > 0 && n as i128 + 2 * v < 0 {
                assert(!scorable(repos@[i as int], norm_list));
                return false;
            }
            j = j + 1;
        }
        assert(scorable(r, norm_list));
        i = i + 1;
    }
    true
}

// ---------------------------------------------------------------------------
// Laws
// ---------------------------------------------------------------------------

/// The denominators of a score.
pub open spec fn denominators(r: Repo, ns: Seq<int>) -> Seq<nat> {
    shares(r, ns).map_values(|p: (int, int)| p.1 as nat)
}

/// Whether every dimension of a repository is a count.
pub open spec fn counted(r: Repo) -> bool {
    forall|i: int| 0 <= i < dimensions().len() ==> (#[trigger] dimensions()[i]).of(r) >= 0
}

/// A list of repositories whose dimensions are counts can be ranked.
pub proof fn law_counts_can_be_ranked(repos: Seq<Repo>)
    requires
        forall|i: int| 0 <= i < repos.len() ==> counted(#[trigger] repos[i]),
    ensures
        rankable(repos),
{
    let ns = norms(repos);
    assert forall|i: int| 0 <= i < repos.len() implies scorable(#[trigger] repos[i], ns) by {
        assert(counted(repos[i]));
        assert forall|k: int| 0 <= k < dimensions().len() implies (#[trigger] shares(
            repos[i],
            ns,
        )[k]).0 >= 0 by {
            assert(dimensions()[k].of(repos[i]) >= 0);
        }
    }
}

/// A repository at the median of a dimension gets a factor of two of it, which is
/// `ln 2` in the score, and one without activity in it gets a factor of one.
pub proof fn law_median_doubles(norm: int, value: int)
    requires
        norm > 0,
    ensures
        2 * value == norm ==> share(norm, value) == (2 * norm, norm),
        value == 0 ==> share(norm, value) == (norm, norm),
{
}

/// Activity never hurts: a repository with at least the value of another in every
/// dimension has at least its score.
pub proof fn law_activity_never_hurts(a: Repo, b: Repo, ns: Seq<int>)
    requires
        scorable(a, ns),
        forall|i: int|
            0 <= i < dimensions().len() ==> (#[trigger] dimensions()[i]).of(a) <= dimensions()[i].of(b),
    ensures
        product(numerators(a, ns)) <= product(numerators(b, ns)),
{
    let (x, y) = (numerators(a, ns), numerators(b, ns));
    assert forall|i: int| 0 <= i < x.len() implies #[trigger] x[i] <= y[i] by {
        assert(dimensions()[i].of(a) <= dimensions()[i].of(b));
        assert(shares(a, ns)[i].0 >= 0);
        assert(shares(b, ns)[i] == share(ns[i], dimensions()[i].of(b)));
    }
    lemma_product_grows(x, y);
}

/// A repository of a list of counts is dormant exactly where its score is zero,
/// that is, where the product of its fractions is one.
pub proof fn law_dormant_has_no_score(repos: Seq<Repo>, r: Repo)
    requires
        repos.contains(r),
        counted(r),
    ensures
        dormant(r) <==> product(numerators(r, norms(repos))) == product(
            denominators(r, norms(repos)),
        ),
{
    let ns = norms(repos);
    let (x, y) = (denominators(r, ns), numerators(r, ns));
    assert forall|i: int| 0 <= i < x.len() implies 0 < #[trigger] x[i] <= y[i] && (x[i] == y[i]
        <==> dimensions()[i].of(r) == 0) by {
        let get = dimensions()[i];
        assert(get.of(r) >= 0);
        lemma_norm(repos, get);
        assert(ns[i] == norm(repos, get));
        assert(shares(r, ns)[i] == share(ns[i], get.of(r)));
        if get.of(r) > 0 {
            assert(norm(repos, get) > 0);
        }
    }
    lemma_product_grows(x, y);
    if dormant(r) {
        assert forall|i: int| 0 <= i < x.len() implies x[i] == #[trigger] y[i] by {
            assert(dimensions()[i].of(r) == 0);
            assert(x[i] <= y[i]);
        }
        assert(x =~= y);
    } else {
        let k = choose|k: int|
            0 <= k < dimensions().len() && (#[trigger] dimensions()[k]).of(r) != 0;
        assert(x[k] < y[k]);
    }
}

/// In a sorted list everything that needs action stands before everything that
/// does not, whatever the scores.
pub proof fn law_action_comes_first(repos: Seq<Repo>, ns: Seq<int>, i: int, j: int)
    requires
        ranked(repos, ns),
        0 <= i < j < repos.len(),
        needs_action(repos[j]),
    ensures
        needs_action(repos[i]),
{
    assert(!ahead(rank_of(repos[j], ns), rank_of(repos[i], ns)));
}

/// There is one way to rank a list: two ranked lists that hold the same
/// repositories of each rank, in the same order, are the same.
pub proof fn law_ranking_is_unique(a: Seq<Repo>, b: Seq<Repo>, ns: Seq<int>)
    requires
        ranked(a, ns),
        ranked(b, ns),
        forall|k: Rank| #[trigger] a.filter(of_rank(k, ns)) == b.filter(of_rank(k, ns)),
    ensures
        a == b,
    decreases a.len(),
{
    reveal(Seq::filter);
    if a.len() == 0 {
        if b.len() > 0 {
            let k = rank_of(b.last(), ns);
            assert(a.filter(of_rank(k, ns)) == b.filter(of_rank(k, ns)));
            assert(b.filter(of_rank(k, ns)).len() > 0);
        }
        assert(a =~= b);
    } else {
        let ka = rank_of(a.last(), ns);
        assert(a.filter(of_rank(ka, ns)) == b.filter(of_rank(ka, ns)));
        assert(a.filter(of_rank(ka, ns)).len() > 0);
        lemma_has_rank(b, ka, ns);
        let kb = rank_of(b.last(), ns);
        assert(a.filter(of_rank(kb, ns)) == b.filter(of_rank(kb, ns)));
        assert(b.filter(of_rank(kb, ns)).len() > 0);
        lemma_has_rank(a, kb, ns);
        let i = choose|i: int| 0 <= i < a.len() && rank_of(#[trigger] a[i], ns) == kb;
        let j = choose|j: int| 0 <= j < b.len() && rank_of(#[trigger] b[j], ns) == ka;
        lemma_ahead(ka, kb);
        if ka != kb {
            assert(!ahead(rank_of(a[a.len() - 1], ns), rank_of(a[i], ns)));
            assert(!ahead(rank_of(b[b.len() - 1], ns), rank_of(b[j], ns)));
        }
        assert(a.filter(of_rank(ka, ns)).last() == a.last());
        assert(b.filter(of_rank(ka, ns)).last() == b.last());
        let (x, y) = (a.drop_last(), b.drop_last());
        assert forall|k: Rank| #[trigger]
            x.filter(of_rank(k, ns)) == y.filter(of_rank(k, ns)) by {
            assert(a.filter(of_rank(k, ns)) == b.filter(of_rank(k, ns)));
            if k == ka {
                assert(x.filter(of_rank(k, ns)) =~= a.filter(of_rank(k, ns)).drop_last());
                assert(y.filter(of_rank(k, ns)) =~= b.filter(of_rank(k, ns)).drop_last());
            }
        }
        law_ranking_is_unique(x, y, ns);
        assert(a =~= x.push(a.last()));
        assert(b =~= y.push(b.last()));
    }
}

proof fn lemma_has_rank(s: Seq<Repo>, k: Rank, ns: Seq<int>)
    requires
        s.filter(of_rank(k, ns)).len() > 0,
    ensures
        exists|i: int| 0 <= i < s.len() && rank_of(#[trigger] s[i], ns) == k,
    decreases s.len(),
{
    reveal(Seq::filter);
    if s.len() > 0 {
        if rank_of(s.last(), ns) == k {
            assert(rank_of(s[s.len() - 1], ns) == k);
        } else {
            let rest = s.drop_last();
            lemma_has_rank(rest, k, ns);
            let i = choose|i: int| 0 <= i < rest.len() && rank_of(#[trigger] rest[i], ns) == k;
            assert(rank_of(s[i], ns) == k);
        }
    }
}

/// What is gathered from a list is gathered from the list without an item, and
/// from that item.
proof fn lemma_gather_remove(s: Seq<Repo>, k: int, f: spec_fn(Repo) -> Option<int>)
    requires
        0 <= k < s.len(),
    ensures
        gather(s, f).to_multiset() == (match f(s[k]) {
            Some(v) => gather(s.remove(k), f).to_multiset().insert(v),
            None => gather(s.remove(k), f).to_multiset(),
        }),
    decreases s.len(),
{
    broadcast use vstd::seq_lib::group_to_multiset_ensures;

    let rest = s.drop_last();
    assert(s =~= rest.push(s.last()));
    if k == s.len() - 1 {
        assert(s.remove(k) =~= rest);
    } else {
        lemma_gather_remove(rest, k, f);
        assert(s.remove(k) =~= rest.remove(k).push(s.last()));
        assert(gather(s, f).to_multiset() =~= (match f(s[k]) {
            Some(v) => gather(s.remove(k), f).to_multiset().insert(v),
            None => gather(s.remove(k), f).to_multiset(),
        }));
    }
}

/// What is gathered from a list does not depend on its order, but for its own.
proof fn lemma_gather_any_order(a: Seq<Repo>, b: Seq<Repo>, f: spec_fn(Repo) -> Option<int>)
    requires
        a.to_multiset() == b.to_multiset(),
    ensures
        gather(a, f).to_multiset() == gather(b, f).to_multiset(),
    decreases a.len(),
{
    broadcast use vstd::seq_lib::group_to_multiset_ensures;

    assert(a.to_multiset().len() == a.len());
    assert(b.to_multiset().len() == b.len());
    if a.len() > 0 {
        let x = a.last();
        let rest = a.drop_last();
        assert(a =~= rest.push(x));
        assert(a.to_multiset().count(x) > 0);
        assert(b.contains(x));
        let k = choose|k: int| 0 <= k < b.len() && b[k] == x;
        lemma_gather_remove(b, k, f);
        assert(b.remove(k).to_multiset() =~= b.to_multiset().remove(x));
        assert(rest.to_multiset() =~= a.to_multiset().remove(x));
        lemma_gather_any_order(rest, b.remove(k), f);
    } else {
        assert(a =~= b);
    }
}

/// The ascending order of a list does not depend on the order it had.
proof fn lemma_ascending_any_order(a: Seq<int>, b: Seq<int>)
    requires
        a.to_multiset() == b.to_multiset(),
    ensures
        ascending(a) == ascending(b),
{
    lemma_ascending(a);
    lemma_ascending(b);
    vstd::seq_lib::lemma_sorted_unique(ascending(a), ascending(b), |x: int, y: int| x <= y);
}

/// The norms of a list do not depend on its order.
pub proof fn law_norms_in_any_order(a: Seq<Repo>, b: Seq<Repo>)
    requires
        a.to_multiset() == b.to_multiset(),
    ensures
        norms(a) == norms(b),
{
    assert forall|i: int| 0 <= i < dimensions().len() implies #[trigger] norms(a)[i] == norms(b)[i] by {
        let f = positive(dimensions()[i]);
        lemma_gather_any_order(a, b, f);
        lemma_ascending_any_order(gather(a, f), gather(b, f));
    }
    assert(norms(a) =~= norms(b));
}

/// Sorting a sorted list changes nothing: `once` is what sorting makes of
/// `repos`, and `twice` what sorting makes of `once`.
pub proof fn law_sorting_settles(repos: Seq<Repo>, once: Seq<Repo>, twice: Seq<Repo>)
    requires
        once.to_multiset() == repos.to_multiset(),
        ranked(once, norms(repos)),
        ranked(twice, norms(once)),
        forall|k: Rank| #[trigger]
            twice.filter(of_rank(k, norms(once))) == once.filter(of_rank(k, norms(once))),
    ensures
        twice == once,
{
    law_norms_in_any_order(once, repos);
    law_ranking_is_unique(twice, once, norms(once));
}

/// What is counted of a repository: sessions, commits, churn, authors, uncommitted files,
/// whether its default branch fails, reviews that wait, and open pull requests.
pub open spec fn signals(r: Repo) -> Seq<int> {
    let fails: int = if r.ci_status is Some && r.ci_status.unwrap()@ == "failure"@ {
        1
    } else {
        0
    };
    seq![
        r.session_count as int,
        r.commits_30d as int,
        r.loc_churn_30d as int,
        r.authors_30d as int,
        r.untracked_files + r.modified_files,
        fails,
        r.prs_awaiting_my_review as int,
        r.open_prs as int,
    ]
}

/// The dimensions read the signals, in their order, and nothing else.
proof fn lemma_dimensions(r: Repo)
    ensures
        dimensions().len() == 8,
        forall|i: int| 0 <= i < 8 ==> (#[trigger] dimensions()[i]).of(r) == signals(r)[i],
        signals(r).len() == 8,
{
    assert(dimensions()[0].of(r) == signals(r)[0]);
    assert(dimensions()[1].of(r) == signals(r)[1]);
    assert(dimensions()[2].of(r) == signals(r)[2]);
    assert(dimensions()[3].of(r) == signals(r)[3]);
    assert(dimensions()[4].of(r) == signals(r)[4]);
    assert(dimensions()[5].of(r) == signals(r)[5]);
    assert(dimensions()[6].of(r) == signals(r)[6]);
    assert(dimensions()[7].of(r) == signals(r)[7]);
}

/// The score has one fraction for each signal `x`: with the norm `m` of the signal it is
/// `1 + x / m`, and 1 where there is no norm.
pub proof fn law_every_signal_has_its_fraction(r: Repo, ns: Seq<int>, i: int)
    requires
        0 <= i < 8,
    ensures
        shares(r, ns).len() == 8,
        ns[i] > 0 ==> shares(r, ns)[i].1 > 0 && shares(r, ns)[i].0 * ns[i] == shares(r, ns)[i].1 * (
        ns[i] + 2 * signals(r)[i]),
        ns[i] <= 0 ==> shares(r, ns)[i].0 == shares(r, ns)[i].1 && shares(r, ns)[i].1 > 0,
{
    lemma_dimensions(r);
    assert(dimensions()[i].of(r) == signals(r)[i]);
    if ns[i] > 0 {
        let (n, x) = (ns[i], signals(r)[i]);
        assert((n + 2 * x) * n == n * (n + 2 * x)) by (nonlinear_arith);
    }
}

/// Repositories that are counted alike score alike, whatever else is known of them.
pub proof fn law_nothing_else_is_scored(a: Repo, b: Repo, ns: Seq<int>)
    requires
        signals(a) == signals(b),
    ensures
        shares(a, ns) == shares(b, ns),
        product(numerators(a, ns)) == product(numerators(b, ns)),
{
    lemma_dimensions(a);
    lemma_dimensions(b);
    assert forall|i: int| 0 <= i < 8 implies shares(a, ns)[i] == shares(b, ns)[i] by {
        assert(dimensions()[i].of(a) == signals(a)[i]);
        assert(dimensions()[i].of(b) == signals(b)[i]);
    }
    assert(shares(a, ns) =~= shares(b, ns));
}

/// More of any one signal, and less of none, scores higher.
pub proof fn law_more_of_a_signal_scores_higher(a: Repo, b: Repo, ns: Seq<int>, k: int)
    requires
        0 <= k < 8,
        ns.len() == 8,
        ns[k] > 0,
        forall|i: int| 0 <= i < 8 ==> 0 <= #[trigger] signals(a)[i] <= signals(b)[i],
        signals(a)[k] < signals(b)[k],
    ensures
        product(numerators(a, ns)) < product(numerators(b, ns)),
{
    lemma_dimensions(a);
    lemma_dimensions(b);
    let (x, y) = (numerators(a, ns), numerators(b, ns));
    assert forall|i: int| 0 <= i < x.len() implies 0 < #[trigger] x[i] <= y[i] by {
        assert(dimensions()[i].of(a) == signals(a)[i]);
        assert(dimensions()[i].of(b) == signals(b)[i]);
        assert(signals(a)[i] <= signals(b)[i]);
        assert(shares(a, ns)[i] == share(ns[i], signals(a)[i]));
        assert(shares(b, ns)[i] == share(ns[i], signals(b)[i]));
    }
    assert(x[k] < y[k]) by {
        assert(dimensions()[k].of(a) == signals(a)[k]);
        assert(dimensions()[k].of(b) == signals(b)[k]);
        assert(shares(a, ns)[k] == share(ns[k], signals(a)[k]));
        assert(shares(b, ns)[k] == share(ns[k], signals(b)[k]));
    }
    lemma_product_grows(x, y);
}

/// A repository is dormant exactly where nothing is counted of it.
pub proof fn law_dormant_without_signals(r: Repo)
    ensures
        dormant(r) <==> r.session_count == 0 && r.commits_30d == 0 && r.loc_churn_30d == 0
            && r.authors_30d == 0 && r.untracked_files + r.modified_files == 0 && !(r.ci_status is Some
            && r.ci_status.unwrap()@ == "failure"@) && r.prs_awaiting_my_review == 0 && r.open_prs
            == 0,
{
    lemma_dimensions(r);
    if dormant(r) {
        assert(dimensions()[0].of(r) == 0);
        assert(dimensions()[1].of(r) == 0);
        assert(dimensions()[2].of(r) == 0);
        assert(dimensions()[3].of(r) == 0);
        assert(dimensions()[4].of(r) == 0);
        assert(dimensions()[5].of(r) == 0);
        assert(dimensions()[6].of(r) == 0);
        assert(dimensions()[7].of(r) == 0);
    }
}

/// A failing run of the default branch, a file that is not committed, an operation that is
/// not finished and a detached head each call for action, and nothing else does: without
/// any of them no count of commits, sessions, pull requests or issues does.
pub proof fn law_what_calls_for_action(r: Repo)
    ensures
        r.ci_status is Some && r.ci_status.unwrap()@ == "failure"@ ==> needs_action(r),
        r.untracked_files >= 0 && r.modified_files > 0 ==> needs_action(r),
        r.untracked_files > 0 && r.modified_files >= 0 ==> needs_action(r),
        r.in_progress_op is Some ==> needs_action(r),
        r.head_ref is Some && r.head_ref.unwrap()@ == "detached"@ ==> needs_action(r),
        !(r.ci_status is Some && r.ci_status.unwrap()@ == "failure"@) && r.untracked_files
            + r.modified_files <= 0 && r.in_progress_op is None && !(r.head_ref is Some
            && r.head_ref.unwrap()@ == "detached"@) ==> !needs_action(r),
{
}

/// In a sorted list, of two repositories that agree on needing action, the one with the
/// greater score never stands behind the other, whether or not they need action.
pub proof fn law_greater_scores_come_first(repos: Seq<Repo>, ns: Seq<int>, i: int, j: int)
    requires
        ranked(repos, ns),
        0 <= i < j < repos.len(),
        needs_action(repos[i]) == needs_action(repos[j]),
    ensures
        product(shares(repos[i], ns).map_values(|p: (int, int)| p.0 as nat)) >= product(
            shares(repos[j], ns).map_values(|p: (int, int)| p.0 as nat),
        ),
{
    assert(!ahead(rank_of(repos[j], ns), rank_of(repos[i], ns)));
    assert(numerators(repos[i], ns) =~= shares(repos[i], ns).map_values(
        |p: (int, int)| p.0 as nat,
    ));
    assert(numerators(repos[j], ns) =~= shares(repos[j], ns).map_values(
        |p: (int, int)| p.0 as nat,
    ));
}

/// In a sorted list no repository stands behind one that needs action no more than it does,
/// and of which there is less of a signal and more of none.
pub proof fn law_the_busier_comes_first(
    repos: Seq<Repo>,
    ns: Seq<int>,
    i: int,
    j: int,
    k: int,
)
    requires
        ranked(repos, ns),
        0 <= i < j < repos.len(),
        0 <= k < 8,
        ns.len() == 8,
        ns[k] > 0,
        needs_action(repos[i]) == needs_action(repos[j]),
        forall|m: int| 0 <= m < 8 ==> 0 <= #[trigger] signals(repos[i])[m] <= signals(repos[j])[m],
    ensures
        signals(repos[i])[k] == signals(repos[j])[k],
{
    law_greater_scores_come_first(repos, ns, i, j);
    assert(numerators(repos[i], ns) =~= shares(repos[i], ns).map_values(
        |p: (int, int)| p.0 as nat,
    ));
    assert(numerators(repos[j], ns) =~= shares(repos[j], ns).map_values(
        |p: (int, int)| p.0 as nat,
    ));
    assert(0 <= signals(repos[i])[k] <= signals(repos[j])[k]);
    if signals(repos[i])[k] < signals(repos[j])[k] {
        law_more_of_a_signal_scores_higher(repos[i], repos[j], ns, k);
    }
}

/// In a sorted list, of two repositories that agree on needing action and in their score,
/// the one whose name stands first in lower case is not the one behind.
pub proof fn law_names_break_ties(repos: Seq<Repo>, ns: Seq<int>, i: int, j: int)
    requires
        ranked(repos, ns),
        0 <= i < j < repos.len(),
        needs_action(repos[i]) == needs_action(repos[j]),
        signals(repos[i]) == signals(repos[j]),
    ensures
        lowercased(repos[i].name@) == lowercased(repos[j].name@) || text_before(
            lowercased(repos[i].name@),
            lowercased(repos[j].name@),
        ),
{
    law_nothing_else_is_scored(repos[i], repos[j], ns);
    assert(!ahead(rank_of(repos[j], ns), rank_of(repos[i], ns)));
    lemma_text_order(lowercased(repos[i].name@), lowercased(repos[j].name@));
}

/// How many repositories have a positive value of a signal that is at most, or at least, a
/// bound.
pub open spec fn up_to(repos: Seq<Repo>, k: int, bound: int) -> nat {
    count_of(repos, |r: Repo| 0 < signals(r)[k] <= bound)
}

/// How many repositories have a positive value of a signal that is at least a bound.
pub open spec fn from_on(repos: Seq<Repo>, k: int, bound: int) -> nat {
    count_of(repos, |r: Repo| 0 < signals(r)[k] && bound <= signals(r)[k])
}

/// The norm of a signal is the median of its positive values: twice the norm is the sum of
/// the two values in the middle, below and above which there are as many as each other,
/// and 0 where no value is positive.
pub proof fn law_norms_are_medians(repos: Seq<Repo>, k: int)
    requires
        0 <= k < 8,
    ensures
        norms(repos).len() == 8,
        from_on(repos, k, 0) == 0 ==> norms(repos)[k] == 0,
        from_on(repos, k, 0) > 0 ==> exists|lo: int, hi: int|
            #![trigger up_to(repos, k, lo), up_to(repos, k, hi)]
            norms(repos)[k] == lo + hi && 2 * up_to(repos, k, lo) >= from_on(repos, k, 0) && 2
                * from_on(repos, k, lo) > from_on(repos, k, 0) && 2 * up_to(repos, k, hi) > from_on(
                repos,
                k,
                0,
            ) && 2 * from_on(repos, k, hi) >= from_on(repos, k, 0),
{
    let get = dimensions()[k];
    let values = gather(repos, positive(get));
    let s = ascending(values);
    let n = s.len() as int;
    assert forall|r: Repo| #[trigger] get.of(r) == signals(r)[k] by {
        lemma_dimensions(r);
    }
    lemma_ascending(values);
    lemma_positives(repos, get);
    lemma_values_counted(repos, k, 0);
    assert(norms(repos)[k] == norm(repos, get));
    assert(count_of(values, |v: int| 0 <= v) == n) by {
        assert forall|i: int| 0 <= i < values.len() implies 0 <= #[trigger] values[i] by {
            assert(values.contains(values[i]));
        }
        lemma_count_all(values, |v: int| 0 <= v);
    }
    if n > 0 {
        let (lo, hi) = if n % 2 == 1 {
            (s[n / 2], s[n / 2])
        } else {
            (s[n / 2 - 1], s[n / 2])
        };
        lemma_values_counted(repos, k, lo);
        lemma_values_counted(repos, k, hi);
        lemma_ascending_counts(values, |v: int| v <= lo);
        lemma_ascending_counts(values, |v: int| lo <= v);
        lemma_ascending_counts(values, |v: int| v <= hi);
        lemma_ascending_counts(values, |v: int| hi <= v);
        if n % 2 == 1 {
            lemma_counts_around(s, n / 2);
        } else {
            lemma_counts_around(s, n / 2 - 1);
            lemma_counts_around(s, n / 2);
        }
        assert(norms(repos)[k] == lo + hi);
        assert(2 * up_to(repos, k, lo) >= from_on(repos, k, 0));
        assert(2 * up_to(repos, k, hi) > from_on(repos, k, 0));
    }
}

/// What is counted of the repositories is counted of their positive values.
proof fn lemma_values_counted(repos: Seq<Repo>, k: int, bound: int)
    requires
        0 <= k < 8,
    ensures
        up_to(repos, k, bound) == count_of(
            gather(repos, positive(dimensions()[k])),
            |v: int| v <= bound,
        ),
        from_on(repos, k, bound) == count_of(
            gather(repos, positive(dimensions()[k])),
            |v: int| bound <= v,
        ),
    decreases repos.len(),
{
    if repos.len() > 0 {
        let rest = repos.drop_last();
        let r = repos.last();
        lemma_values_counted(rest, k, bound);
        lemma_dimensions(r);
        assert(dimensions()[k].of(r) == signals(r)[k]);
        assert(repos =~= rest.push(r));
    }
}

proof fn lemma_count_all(s: Seq<int>, p: spec_fn(int) -> bool)
    requires
        forall|i: int| 0 <= i < s.len() ==> p(#[trigger] s[i]),
    ensures
        count_of(s, p) == s.len(),
    decreases s.len(),
{
    if s.len() > 0 {
        let rest = s.drop_last();
        assert forall|i: int| 0 <= i < rest.len() implies p(#[trigger] rest[i]) by {
            assert(rest[i] == s[i]);
        }
        lemma_count_all(rest, p);
        assert(p(s[s.len() - 1]));
    }
}

/// What is counted of a list with an item put in.
proof fn lemma_count_insert(s: Seq<int>, k: int, x: int, p: spec_fn(int) -> bool)
    requires
        0 <= k <= s.len(),
    ensures
        count_of(s.insert(k, x), p) == count_of(s, p) + (if p(x) {
            1nat
        } else {
            0
        }),
    decreases s.len(),
{
    if k == s.len() {
        assert(s.insert(k, x) =~= s.push(x));
    } else {
        let rest = s.drop_last();
        lemma_count_insert(rest, k, x, p);
        assert(s.insert(k, x) =~= rest.insert(k, x).push(s.last()));
        assert(s =~= rest.push(s.last()));
    }
}

/// Putting a list in order does not change what is counted of it.
proof fn lemma_ascending_counts(values: Seq<int>, p: spec_fn(int) -> bool)
    ensures
        count_of(ascending(values), p) == count_of(values, p),
    decreases values.len(),
{
    if values.len() > 0 {
        let rest = values.drop_last();
        lemma_ascending_counts(rest, p);
        lemma_place(ascending(rest), values.last());
        lemma_count_insert(
            ascending(rest),
            place(ascending(rest), values.last()),
            values.last(),
            p,
        );
    }
}

/// What is counted of the parts of a list.
proof fn lemma_count_parts(s: Seq<int>, k: int, p: spec_fn(int) -> bool)
    requires
        0 <= k <= s.len(),
    ensures
        count_of(s, p) == count_of(s.take(k), p) + count_of(s.skip(k), p),
    decreases s.len(),
{
    if k == s.len() {
        assert(s.take(k) =~= s);
        assert(s.skip(k) =~= Seq::empty());
    } else {
        let rest = s.drop_last();
        lemma_count_parts(rest, k, p);
        assert(rest.take(k) =~= s.take(k));
        assert(s.skip(k) =~= rest.skip(k).push(s.last()));
        assert(s =~= rest.push(s.last()));
    }
}

/// How many items of an ascending list are at most, and at least, one of them.
proof fn lemma_counts_around(s: Seq<int>, k: int)
    requires
        0 <= k < s.len(),
        forall|i: int, j: int| 0 <= i <= j < s.len() ==> #[trigger] s[i] <= #[trigger] s[j],
    ensures
        count_of(s, |v: int| v <= s[k]) >= k + 1,
        count_of(s, |v: int| s[k] <= v) >= s.len() - k,
{
    let p = |v: int| v <= s[k];
    let q = |v: int| s[k] <= v;
    lemma_count_parts(s, k + 1, p);
    lemma_count_all(s.take(k + 1), p);
    lemma_count_parts(s, k, q);
    lemma_count_all(s.skip(k), q);
}

/// No two dimensions go by the same key, and every one is of the history, of the working
/// tree or of the remote.
pub proof fn law_dimensions_have_their_keys(a: AttrFn, b: AttrFn)
    ensures
        key_of(a) == key_of(b) ==> a == b,
        dimensions().contains(a),
        category_of(a) is LocalState <==> a is Uncommitted,
        category_of(a) is RemoteState <==> a is CiFailing || a is ReviewsWaiting || a is OpenPrs,
        category_of(a) is Historical <==> a is Sessions || a is Commits || a is Churn || a is Authors,
{
    reveal_strlit("sessions");
    reveal_strlit("commits_30d");
    reveal_strlit("loc_churn_30d");
    reveal_strlit("authors_30d");
    reveal_strlit("uncommitted_files");
    reveal_strlit("ci_failing");
    reveal_strlit("prs_awaiting_my_review");
    reveal_strlit("open_prs");
    assert("sessions"@.len() == 8 && "sessions"@[0] == 's');
    assert("commits_30d"@.len() == 11 && "commits_30d"@[0] == 'c');
    assert("loc_churn_30d"@.len() == 13);
    assert("authors_30d"@.len() == 11 && "authors_30d"@[0] == 'a');
    assert("uncommitted_files"@.len() == 17);
    assert("ci_failing"@.len() == 10);
    assert("prs_awaiting_my_review"@.len() == 22);
    assert("open_prs"@.len() == 8 && "open_prs"@[0] == 'o');
    let all = dimensions();
    assert(all[0] is Sessions && all[1] is Commits && all[2] is Churn && all[3] is Authors);
    assert(all[4] is Uncommitted && all[5] is CiFailing && all[6] is ReviewsWaiting);
    assert(all[7] is OpenPrs);
}

} // verus!
