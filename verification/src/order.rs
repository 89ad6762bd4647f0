//! Orders: of texts, and of integers in a list.

use vstd::prelude::*;

verus! {

/// Whether one text stands before another, by their characters' code points. The
/// UTF-8 bytes of the texts order in the same way.
pub open spec fn text_before(a: Seq<char>, b: Seq<char>) -> bool
    decreases a.len(),
{
    if b.len() == 0 {
        false
    } else if a.len() == 0 {
        true
    } else if a[0] != b[0] {
        (a[0] as int) < (b[0] as int)
    } else {
        text_before(a.drop_first(), b.drop_first())
    }
}

/// Of two texts one stands before the other, or they are the same, and never both.
pub proof fn lemma_text_order(a: Seq<char>, b: Seq<char>)
    ensures
        text_before(a, b) ==> !text_before(b, a),
        text_before(a, b) || text_before(b, a) <==> a != b,
    decreases a.len(),
{
    if a.len() > 0 && b.len() > 0 {
        let (x, y) = (a.drop_first(), b.drop_first());
        lemma_text_order(x, y);
        if a[0] == b[0] {
            assert(a =~= seq![a[0]] + x);
            assert(b =~= seq![b[0]] + y);
        }
    } else if a.len() == 0 && b.len() == 0 {
        assert(a =~= b);
    }
}

/// What stands before a text stands before all that the text stands before.
pub proof fn lemma_text_order_chains(a: Seq<char>, b: Seq<char>, c: Seq<char>)
    requires
        text_before(a, b),
        text_before(b, c),
    ensures
        text_before(a, c),
    decreases a.len(),
{
    if a.len() > 0 && a[0] == b[0] && b[0] == c[0] {
        lemma_text_order_chains(a.drop_first(), b.drop_first(), c.drop_first());
    }
}

/// The code point of a character.
fn code_point(c: char) -> (out: u32)
    ensures
        out == c as int,
{
    c as u32
}

/// Whether one text stands before another.
pub fn stands_before(a: &[char], b: &[char]) -> (out: bool)
    ensures
        out == text_before(a@, b@),
{
    let mut i: usize = 0;
    assert(a@.skip(0) =~= a@);
    assert(b@.skip(0) =~= b@);
    while i < a.len() && i < b.len()
        invariant
            i <= a@.len(),
            i <= b@.len(),
            text_before(a@, b@) == text_before(a@.skip(i as int), b@.skip(i as int)),
        decreases a@.len() - i,
    {
        let x: char = a[i];
        let y: char = b[i];
        if x != y {
            return code_point(x) < code_point(y);
        }
        assert(a@.skip(i as int).drop_first() =~= a@.skip(i + 1));
        assert(b@.skip(i as int).drop_first() =~= b@.skip(i + 1));
        i = i + 1;
    }
    i < b.len()
}

/// Where an integer goes in an ascending list: behind all that are not greater.
pub open spec fn place(s: Seq<int>, x: int) -> int
    decreases s.len(),
{
    if s.len() == 0 || s.last() <= x {
        s.len() as int
    } else {
        place(s.drop_last(), x)
    }
}

/// The integers of a list, ascending.
pub open spec fn ascending(values: Seq<int>) -> Seq<int>
    decreases values.len(),
{
    if values.len() == 0 {
        values
    } else {
        let front = ascending(values.drop_last());
        front.insert(place(front, values.last()), values.last())
    }
}

/// Where a place lies.
pub proof fn lemma_place(s: Seq<int>, x: int)
    ensures
        0 <= place(s, x) <= s.len(),
        place(s, x) > 0 ==> s[place(s, x) - 1] <= x,
        forall|i: int| place(s, x) <= i < s.len() ==> x < #[trigger] s[i],
    decreases s.len(),
{
    if s.len() > 0 && s.last() > x {
        lemma_place(s.drop_last(), x);
        assert forall|i: int| place(s, x) <= i < s.len() implies x < #[trigger] s[i] by {
            if i < s.len() - 1 {
                assert(s.drop_last()[i] == s[i]);
            }
        }
    }
}

/// `ascending` puts a list in ascending order, and keeps its items.
pub proof fn lemma_ascending(values: Seq<int>)
    ensures
        ascending(values).len() == values.len(),
        ascending(values).to_multiset() == values.to_multiset(),
        forall|i: int, j: int|
            0 <= i <= j < values.len() ==> #[trigger] ascending(values)[i] <= #[trigger] ascending(
                values,
            )[j],
        forall|i: int| 0 <= i < values.len() ==> values.contains(#[trigger] ascending(values)[i]),
    decreases values.len(),
{
    broadcast use vstd::seq_lib::group_to_multiset_ensures;

    if values.len() > 0 {
        let rest = values.drop_last();
        let front = ascending(rest);
        let x = values.last();
        let k = place(front, x);
        lemma_ascending(rest);
        lemma_place(front, x);
        let out = ascending(values);
        assert(values =~= rest.push(x));
        assert(out.to_multiset() =~= values.to_multiset());
        assert forall|i: int, j: int| 0 <= i <= j < values.len() implies #[trigger] out[i]
            <= #[trigger] out[j] by {
            if i < k {
                assert(out[i] == front[i]);
                assert(front[i] <= front[k - 1]);
            } else if i > k {
                assert(out[i] == front[i - 1]);
            }
            if j < k {
                assert(out[j] == front[j]);
            } else if j > k {
                assert(out[j] == front[j - 1]);
            }
        }
        assert forall|i: int| 0 <= i < values.len() implies values.contains(#[trigger] out[i]) by {
            if i == k {
                assert(values[values.len() - 1] == out[i]);
            } else {
                let from = if i < k {
                    i
                } else {
                    i - 1
                };
                assert(out[i] == front[from]);
                assert(rest.contains(front[from]));
                let w = choose|w: int| 0 <= w < rest.len() && rest[w] == front[from];
                assert(values[w] == out[i]);
            }
        }
    }
}

/// The integers that a list holds.
pub open spec fn wholes(values: Seq<i128>) -> Seq<int> {
    values.map_values(|v: i128| v as int)
}

/// Puts integers in ascending order.
pub fn sorted(values: &Vec<i128>) -> (out: Vec<i128>)
    ensures
        wholes(out@) == ascending(wholes(values@)),
{
    let mut out: Vec<i128> = Vec::new();
    let mut i: usize = 0;
    assert(wholes(out@) =~= ascending(wholes(values@).take(0)));
    while i < values.len()
        invariant
            i <= values@.len(),
            wholes(out@) == ascending(wholes(values@).take(i as int)),
        decreases values@.len() - i,
    {
        let x: i128 = values[i];
        let ghost front = wholes(out@);
        let mut k: usize = out.len();
        assert(front.take(k as int) =~= front);
        while k > 0 && out[k - 1] > x
            invariant
                k <= out@.len(),
                front == wholes(out@),
                place(front, x as int) == place(front.take(k as int), x as int),
            decreases k,
        {
            assert(front.take(k as int).drop_last() =~= front.take(k - 1));
            k = k - 1;
        }
        assert(place(front, x as int) == k);
        out.insert(k, x);
        proof {
            let part = wholes(values@).take(i + 1);
            assert(part.drop_last() =~= wholes(values@).take(i as int));
            assert(wholes(out@) =~= front.insert(k as int, x as int));
        }
        i = i + 1;
    }
    assert(wholes(values@).take(i as int) =~= wholes(values@));
    out
}

// ---------------------------------------------------------------------------
// Laws
// ---------------------------------------------------------------------------

/// Texts order by the first character in which they differ, and the beginning of a text
/// stands before the text.
pub proof fn law_the_first_difference_decides(
    start: Seq<char>,
    a: char,
    x: Seq<char>,
    b: char,
    y: Seq<char>,
)
    ensures
        (a as int) < (b as int) ==> text_before(start + seq![a] + x, start + seq![b] + y),
        (a as int) < (b as int) ==> !text_before(start + seq![b] + y, start + seq![a] + x),
        text_before(start, start + seq![a] + x),
        !text_before(start, start),
    decreases start.len(),
{
    let (s, t) = (start + seq![a] + x, start + seq![b] + y);
    lemma_text_order(s, t);
    lemma_text_order(start, start);
    if start.len() > 0 {
        let rest = start.drop_first();
        law_the_first_difference_decides(rest, a, x, b, y);
        assert(s.drop_first() =~= rest + seq![a] + x);
        assert(t.drop_first() =~= rest + seq![b] + y);
        assert(s[0] == t[0]);
    } else {
        assert(s[0] == a);
        assert(t[0] == b);
    }
}

} // verus!
