//! What loops over a list compute, said of the list as a whole.

use vstd::prelude::*;

verus! {

/// The first value in a list of values that may be missing.
pub open spec fn first_some<T>(s: Seq<Option<T>>) -> Option<T>
    decreases s.len(),
{
    if s.len() == 0 {
        None
    } else {
        match first_some(s.drop_last()) {
            Some(x) => Some(x),
            None => s.last(),
        }
    }
}

/// The values that `f` yields for the items of a list, in order, leaving out
/// the items for which it yields none.
pub open spec fn gather<A, B>(s: Seq<A>, f: spec_fn(A) -> Option<B>) -> Seq<B>
    decreases s.len(),
{
    if s.len() == 0 {
        Seq::empty()
    } else {
        match f(s.last()) {
            Some(x) => gather(s.drop_last(), f).push(x),
            None => gather(s.drop_last(), f),
        }
    }
}

/// The number of items with a property.
pub open spec fn count_of<A>(s: Seq<A>, p: spec_fn(A) -> bool) -> nat
    decreases s.len(),
{
    if s.len() == 0 {
        0
    } else {
        count_of(s.drop_last(), p) + (if p(s.last()) {
            1nat
        } else {
            0
        })
    }
}

/// The sum of what `f` yields for the items of a list.
pub open spec fn sum_of<A>(s: Seq<A>, f: spec_fn(A) -> int) -> int
    decreases s.len(),
{
    if s.len() == 0 {
        0
    } else {
        sum_of(s.drop_last(), f) + f(s.last())
    }
}

/// The least of a list of integers.
pub open spec fn least(s: Seq<int>) -> Option<int>
    decreases s.len(),
{
    if s.len() == 0 {
        None
    } else {
        match least(s.drop_last()) {
            Some(m) => if m <= s.last() {
                Some(m)
            } else {
                Some(s.last())
            },
            None => Some(s.last()),
        }
    }
}

/// The greatest of a list of integers.
pub open spec fn greatest(s: Seq<int>) -> Option<int>
    decreases s.len(),
{
    if s.len() == 0 {
        None
    } else {
        match greatest(s.drop_last()) {
            Some(m) => if m >= s.last() {
                Some(m)
            } else {
                Some(s.last())
            },
            None => Some(s.last()),
        }
    }
}

/// One more item at the end of the list.
pub broadcast proof fn lemma_first_some_push<T>(s: Seq<Option<T>>, x: Option<T>)
    ensures
        #[trigger] first_some(s.push(x)) == (match first_some(s) {
            Some(y) => Some(y),
            None => x,
        }),
{
    assert(s.push(x).drop_last() =~= s);
}

/// One more item at the end of the list.
pub broadcast proof fn lemma_gather_push<A, B>(s: Seq<A>, x: A, f: spec_fn(A) -> Option<B>)
    ensures
        #[trigger] gather(s.push(x), f) == (match f(x) {
            Some(y) => gather(s, f).push(y),
            None => gather(s, f),
        }),
{
    assert(s.push(x).drop_last() =~= s);
}

/// One more item at the end of the list.
pub broadcast proof fn lemma_count_push<A>(s: Seq<A>, x: A, p: spec_fn(A) -> bool)
    ensures
        #[trigger] count_of(s.push(x), p) == count_of(s, p) + (if p(x) {
            1nat
        } else {
            0
        }),
{
    assert(s.push(x).drop_last() =~= s);
}

/// One more item at the end of the list.
pub broadcast proof fn lemma_sum_push<A>(s: Seq<A>, x: A, f: spec_fn(A) -> int)
    ensures
        #[trigger] sum_of(s.push(x), f) == sum_of(s, f) + f(x),
{
    assert(s.push(x).drop_last() =~= s);
}

/// One more item at the end of the list.
pub broadcast proof fn lemma_least_push(s: Seq<int>, x: int)
    ensures
        #[trigger] least(s.push(x)) == (match least(s) {
            Some(m) => if m <= x {
                Some(m)
            } else {
                Some(x)
            },
            None => Some(x),
        }),
{
    assert(s.push(x).drop_last() =~= s);
}

/// One more item at the end of the list.
pub broadcast proof fn lemma_greatest_push(s: Seq<int>, x: int)
    ensures
        #[trigger] greatest(s.push(x)) == (match greatest(s) {
            Some(m) => if m >= x {
                Some(m)
            } else {
                Some(x)
            },
            None => Some(x),
        }),
{
    assert(s.push(x).drop_last() =~= s);
}

pub broadcast group group_list_steps {
    lemma_first_some_push,
    lemma_gather_push,
    lemma_count_push,
    lemma_sum_push,
    lemma_least_push,
    lemma_greatest_push,
}

/// The least of a list is one of its items, and no item is less.
pub proof fn lemma_least_is_least(s: Seq<int>)
    ensures
        s.len() > 0 <==> least(s) is Some,
        s.len() > 0 ==> s.contains(least(s).unwrap()),
        forall|i: int| 0 <= i < s.len() ==> least(s).unwrap() <= #[trigger] s[i],
    decreases s.len(),
{
    if s.len() > 0 {
        let front = s.drop_last();
        lemma_least_is_least(front);
        if front.len() > 0 {
            let w = choose|w: int| 0 <= w < front.len() && front[w] == least(front).unwrap();
            assert(s[w] == front[w]);
            assert(s[s.len() - 1] == s.last());
            assert forall|i: int| 0 <= i < s.len() implies least(s).unwrap() <= #[trigger] s[i] by {
                if i < front.len() {
                    assert(front[i] == s[i]);
                }
            }
        } else {
            assert(s[0] == s.last());
        }
    }
}

/// The greatest of a list is one of its items, and no item is greater.
pub proof fn lemma_greatest_is_greatest(s: Seq<int>)
    ensures
        s.len() > 0 <==> greatest(s) is Some,
        s.len() > 0 ==> s.contains(greatest(s).unwrap()),
        forall|i: int| 0 <= i < s.len() ==> greatest(s).unwrap() >= #[trigger] s[i],
    decreases s.len(),
{
    if s.len() > 0 {
        let front = s.drop_last();
        lemma_greatest_is_greatest(front);
        if front.len() > 0 {
            let w = choose|w: int| 0 <= w < front.len() && front[w] == greatest(front).unwrap();
            assert(s[w] == front[w]);
            assert(s[s.len() - 1] == s.last());
            assert forall|i: int| 0 <= i < s.len() implies greatest(s).unwrap() >= #[trigger] s[i] by {
                if i < front.len() {
                    assert(front[i] == s[i]);
                }
            }
        } else {
            assert(s[0] == s.last());
        }
    }
}

// ---------------------------------------------------------------------------
// Laws
// ---------------------------------------------------------------------------

/// The first value there is comes before all others, and there is none where all are
/// missing.
pub proof fn law_the_first_value_counts<T>(s: Seq<Option<T>>, k: int)
    requires
        0 <= k <= s.len(),
        k < s.len() ==> s[k] is Some,
        forall|i: int| 0 <= i < k ==> (#[trigger] s[i]) is None,
    ensures
        k < s.len() ==> first_some(s) == s[k],
        k == s.len() ==> first_some(s) is None,
    decreases s.len(),
{
    if s.len() > 0 {
        let rest = s.drop_last();
        assert forall|i: int| 0 <= i < k && i < rest.len() implies (#[trigger] rest[i]) is None by {
            assert(rest[i] == s[i]);
        }
        if k < rest.len() {
            assert(rest[k] == s[k]);
            law_the_first_value_counts(rest, k);
        } else {
            law_the_first_value_counts(rest, rest.len() as int);
            assert(s.last() == s[s.len() - 1]);
        }
    }
}

/// A value is gathered exactly where an item yields it.
pub proof fn law_what_is_gathered<A, B>(s: Seq<A>, f: spec_fn(A) -> Option<B>, y: B)
    ensures
        gather(s, f).contains(y) <==> exists|i: int| 0 <= i < s.len() && f(#[trigger] s[i]) == Some(
            y,
        ),
    decreases s.len(),
{
    let all = gather(s, f);
    if s.len() > 0 {
        let rest = s.drop_last();
        let x = s.last();
        let part = gather(rest, f);
        law_what_is_gathered(rest, f, y);
        if all.contains(y) {
            let k = choose|k: int| 0 <= k < all.len() && all[k] == y;
            if k < part.len() {
                assert(part[k] == y);
                let i = choose|i: int| 0 <= i < rest.len() && f(#[trigger] rest[i]) == Some(y);
                assert(f(s[i]) == Some(y));
            } else {
                assert(f(s[s.len() - 1]) == Some(y));
            }
        }
        if exists|i: int| 0 <= i < s.len() && f(#[trigger] s[i]) == Some(y) {
            let i = choose|i: int| 0 <= i < s.len() && f(#[trigger] s[i]) == Some(y);
            if i < rest.len() {
                assert(f(rest[i]) == Some(y));
                let k = choose|k: int| 0 <= k < part.len() && part[k] == y;
                assert(all[k] == y);
            } else {
                assert(all[all.len() - 1] == y);
            }
        }
    }
}

/// Two items or more yield a value exactly where two values or more are gathered.
pub proof fn law_two_are_gathered<A, B>(s: Seq<A>, f: spec_fn(A) -> Option<B>)
    ensures
        gather(s, f).len() >= 2 <==> exists|i: int, j: int|
            0 <= i < j < s.len() && f(#[trigger] s[i]) is Some && f(#[trigger] s[j]) is Some,
        gather(s, f).len() >= 1 <==> exists|i: int| 0 <= i < s.len() && f(#[trigger] s[i]) is Some,
    decreases s.len(),
{
    if s.len() > 0 {
        let rest = s.drop_last();
        law_two_are_gathered(rest, f);
        assert(s.last() == s[s.len() - 1]);
        if gather(rest, f).len() >= 1 {
            let i = choose|i: int| 0 <= i < rest.len() && f(#[trigger] rest[i]) is Some;
            assert(f(s[i]) is Some);
        }
        if gather(rest, f).len() >= 2 {
            let (i, j) = choose|i: int, j: int|
                0 <= i < j < rest.len() && f(#[trigger] rest[i]) is Some && f(#[trigger] rest[j]) is Some;
            assert(f(s[i]) is Some && f(s[j]) is Some);
        }
        if exists|i: int, j: int|
            0 <= i < j < s.len() && f(#[trigger] s[i]) is Some && f(#[trigger] s[j]) is Some {
            let (i, j) = choose|i: int, j: int|
                0 <= i < j < s.len() && f(#[trigger] s[i]) is Some && f(#[trigger] s[j]) is Some;
            assert(f(rest[i]) is Some);
            if j < rest.len() {
                assert(f(rest[j]) is Some);
            }
        }
        if exists|i: int| 0 <= i < s.len() && f(#[trigger] s[i]) is Some {
            let i = choose|i: int| 0 <= i < s.len() && f(#[trigger] s[i]) is Some;
            if i < rest.len() {
                assert(f(rest[i]) is Some);
            }
        }
    }
}

/// The number of items with a property is the length of the list of these items.
pub proof fn law_counting_is_filtering<A>(s: Seq<A>, p: spec_fn(A) -> bool)
    ensures
        count_of(s, p) == s.filter(p).len(),
    decreases s.len(),
{
    reveal(Seq::filter);
    if s.len() > 0 {
        law_counting_is_filtering(s.drop_last(), p);
    }
}

/// What is gathered from the items with a property is what these items yield, in their
/// order.
pub proof fn law_gathering_is_filtering<A, B>(
    s: Seq<A>,
    f: spec_fn(A) -> Option<B>,
    p: spec_fn(A) -> bool,
    g: spec_fn(A) -> B,
)
    requires
        forall|x: A| #[trigger] f(x) == (if p(x) {
            Some(g(x))
        } else {
            None
        }),
    ensures
        gather(s, f) == s.filter(p).map_values(g),
    decreases s.len(),
{
    reveal(Seq::filter);
    if s.len() > 0 {
        law_gathering_is_filtering(s.drop_last(), f, p, g);
        assert(f(s.last()) == (if p(s.last()) {
            Some(g(s.last()))
        } else {
            None
        }));
    }
    assert(gather(s, f) =~= s.filter(p).map_values(g));
}

} // verus!
