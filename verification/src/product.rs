//! Products of machine integers, exact and of any size, to be compared.

use vstd::prelude::*;

verus! {

/// The base in which a product is written.
pub open spec fn base() -> nat {
    0x1_0000_0000
}

/// The number that digits stand for, the least significant first.
pub open spec fn number(digits: Seq<u32>) -> nat
    decreases digits.len(),
{
    if digits.len() == 0 {
        0
    } else {
        digits[0] as nat + base() * number(digits.drop_first())
    }
}

/// The product of a list of numbers.
pub open spec fn product(factors: Seq<nat>) -> nat
    decreases factors.len(),
{
    if factors.len() == 0 {
        1
    } else {
        product(factors.drop_last()) * factors.last()
    }
}

/// The numbers that a list of machine integers holds.
pub open spec fn naturals(factors: Seq<u128>) -> Seq<nat> {
    factors.map_values(|f: u128| f as nat)
}

/// The number that digits stand for with a digit more at the end.
proof fn lemma_number_push(digits: Seq<u32>, d: u32)
    ensures
        number(digits.push(d)) == number(digits) + weight(digits.len()) * d,
    decreases digits.len(),
{
    reveal_with_fuel(number, 2);
    if digits.len() == 0 {
        assert(digits.push(d).drop_first() =~= Seq::empty());
        assert(weight(0) == 1);
    } else {
        let rest = digits.drop_first();
        lemma_number_push(rest, d);
        assert(digits.push(d).drop_first() =~= rest.push(d));
        assert(base() * (number(rest) + weight(rest.len()) * d) == base() * number(rest) + (base()
            * weight(rest.len())) * d) by (nonlinear_arith);
    }
}

/// What the digit after `n` others counts.
spec fn weight(n: nat) -> nat
    decreases n,
{
    if n == 0 {
        1
    } else {
        base() * weight((n - 1) as nat)
    }
}

/// Digits stand for less than the digit after them counts.
proof fn lemma_number_bound(digits: Seq<u32>)
    ensures
        number(digits) < weight(digits.len()),
    decreases digits.len(),
{
    if digits.len() > 0 {
        let rest = digits.drop_first();
        lemma_number_bound(rest);
        let (n, w) = (number(rest), weight(rest.len()));
        assert(base() * n + base() <= base() * w) by (nonlinear_arith)
            requires
                n + 1 <= w,
        ;
    }
}

/// Of two numbers of the same length the one with the greater last digit is the
/// greater.
proof fn lemma_last_decides(a: Seq<u32>, b: Seq<u32>)
    requires
        a.len() == b.len(),
        a.len() > 0,
    ensures
        a.last() < b.last() ==> number(a) < number(b),
        a.last() == b.last() ==> (number(a) < number(b) <==> number(a.drop_last()) < number(
            b.drop_last(),
        )),
{
    let (x, y) = (a.drop_last(), b.drop_last());
    assert(a =~= x.push(a.last()));
    assert(b =~= y.push(b.last()));
    lemma_number_push(x, a.last());
    lemma_number_push(y, b.last());
    lemma_number_bound(x);
    let w = weight(x.len());
    let (p, q) = (a.last(), b.last());
    if p < q {
        assert(w * p + w <= w * q) by (nonlinear_arith)
            requires
                p + 1 <= q,
        ;
    }
}

/// Multiplies a number by `factor`. The result is three digits longer.
fn times(digits: &Vec<u32>, factor: u128) -> (out: Vec<u32>)
    requires
        factor <= 0x8_0000_0000_0000_0000,
        digits@.len() + 3 <= usize::MAX,
    ensures
        number(out@) == number(digits@) * factor,
        out@.len() == digits@.len() + 3,
{
    let mut out: Vec<u32> = Vec::new();
    let mut carry: u128 = 0;
    let mut i: usize = 0;
    assert(digits@.take(0) =~= Seq::empty());
    assert(0nat * (factor as nat) == 0) by (nonlinear_arith);
    assert(weight(0) * carry == 0) by (nonlinear_arith)
        requires
            carry == 0,
    ;
    while i < digits.len()
        invariant
            i <= digits@.len(),
            out@.len() == i,
            carry <= factor <= 0x8_0000_0000_0000_0000,
            number(out@) + weight(i as nat) * carry == number(digits@.take(i as int)) * factor,
        decreases digits@.len() - i,
    {
        let d: u32 = digits[i];
        assert(d * factor + carry <= 0x1_0000_0000 * factor) by (nonlinear_arith)
            requires
                d <= 0xffff_ffff,
                carry <= factor,
        ;
        let t: u128 = d as u128 * factor + carry;
        let low: u32 = (t % 0x1_0000_0000) as u32;
        let next: u128 = t / 0x1_0000_0000;
        proof {
            lemma_number_push(out@, low);
            lemma_number_push(digits@.take(i as int), d);
            assert(digits@.take(i + 1) =~= digits@.take(i as int).push(d));
            let w = weight(i as nat);
            let n = number(digits@.take(i as int));
            assert(weight((i + 1) as nat) == base() * w);
            assert(w * low + (base() * w) * next == w * (d * factor + carry)) by (nonlinear_arith)
                requires
                    low + base() * next == d * factor + carry,
            ;
            assert(w * (d * factor + carry) == (w * d) * factor + w * carry) by (nonlinear_arith);
            assert((n + w * d) * factor == n * factor + (w * d) * factor) by (nonlinear_arith);
        }
        out.push(low);
        carry = next;
        i = i + 1;
    }
    proof {
        assert(digits@.take(i as int) =~= digits@);
    }
    let ghost before = out@;
    let ghost w = weight(i as nat);
    let first: u32 = (carry % 0x1_0000_0000) as u32;
    let rest: u128 = carry / 0x1_0000_0000;
    let second: u32 = (rest % 0x1_0000_0000) as u32;
    let third: u32 = (rest / 0x1_0000_0000) as u32;
    out.push(first);
    out.push(second);
    out.push(third);
    proof {
        lemma_number_push(before, first);
        lemma_number_push(before.push(first), second);
        lemma_number_push(before.push(first).push(second), third);
        assert(weight((i + 1) as nat) == base() * w);
        assert(weight((i + 2) as nat) == base() * (base() * w));
        assert(w * first + (base() * w) * second + (base() * (base() * w)) * third == w * carry)
            by (nonlinear_arith)
            requires
                carry == first + base() * (second + base() * third),
        ;
    }
    out
}

/// The digits of a product of factors, three to a factor and one more.
pub fn multiplied(factors: &Vec<u128>) -> (out: Vec<u32>)
    requires
        3 * factors@.len() + 4 <= usize::MAX,
        forall|i: int| 0 <= i < factors@.len() ==> #[trigger] factors@[i] <= 0x8_0000_0000_0000_0000,
    ensures
        number(out@) == product(naturals(factors@)),
        out@.len() == 3 * factors@.len() + 1,
{
    let mut out: Vec<u32> = Vec::new();
    out.push(1);
    let mut i: usize = 0;
    proof {
        reveal_with_fuel(number, 2);
        assert(out@.drop_first() =~= Seq::empty());
        assert(naturals(factors@).take(0) =~= Seq::empty());
    }
    while i < factors.len()
        invariant
            i <= factors@.len(),
            3 * factors@.len() + 4 <= usize::MAX,
            forall|i: int|
                0 <= i < factors@.len() ==> #[trigger] factors@[i] <= 0x8_0000_0000_0000_0000,
            number(out@) == product(naturals(factors@).take(i as int)),
            out@.len() == 3 * i + 1,
        decreases factors@.len() - i,
    {
        out = times(&out, factors[i]);
        assert(naturals(factors@).take(i + 1).drop_last() =~= naturals(factors@).take(i as int));
        i = i + 1;
    }
    assert(naturals(factors@).take(i as int) =~= naturals(factors@));
    out
}

/// Whether one number is less than another of the same length.
pub fn less(a: &Vec<u32>, b: &Vec<u32>) -> (out: bool)
    requires
        a@.len() == b@.len(),
    ensures
        out == (number(a@) < number(b@)),
{
    let mut n: usize = a.len();
    assert(a@.take(n as int) =~= a@);
    assert(b@.take(n as int) =~= b@);
    while n > 0
        invariant
            n <= a@.len(),
            a@.len() == b@.len(),
            (number(a@) < number(b@)) == (number(a@.take(n as int)) < number(b@.take(n as int))),
        decreases n,
    {
        let (x, y) = (a[n - 1], b[n - 1]);
        proof {
            let (s, t) = (a@.take(n as int), b@.take(n as int));
            lemma_last_decides(s, t);
            lemma_last_decides(t, s);
            assert(s.drop_last() =~= a@.take(n - 1));
            assert(t.drop_last() =~= b@.take(n - 1));
        }
        if x != y {
            return x < y;
        }
        n = n - 1;
    }
    false
}

/// A product in which no factor shrinks does not shrink, and it grows where it
/// was positive and a factor grows.
pub proof fn lemma_product_grows(a: Seq<nat>, b: Seq<nat>)
    requires
        a.len() == b.len(),
        forall|i: int| 0 <= i < a.len() ==> #[trigger] a[i] <= b[i],
    ensures
        product(a) <= product(b),
        (forall|i: int| 0 <= i < a.len() ==> #[trigger] a[i] > 0) ==> product(a) > 0,
        (forall|i: int| 0 <= i < a.len() ==> #[trigger] a[i] > 0) && (exists|i: int|
            0 <= i < a.len() && #[trigger] a[i] < b[i]) ==> product(a) < product(b),
    decreases a.len(),
{
    if a.len() > 0 {
        let (s, t) = (a.drop_last(), b.drop_last());
        assert forall|i: int| 0 <= i < s.len() implies #[trigger] s[i] <= t[i] by {
            assert(a[i] <= b[i]);
        }
        lemma_product_grows(s, t);
        let (p, q) = (product(s), product(t));
        let (x, y) = (a.last(), b.last());
        assert(a[a.len() - 1] <= b[a.len() - 1]);
        assert(p * x <= q * y) by (nonlinear_arith)
            requires
                p <= q,
                x <= y,
        ;
        if forall|i: int| 0 <= i < a.len() ==> #[trigger] a[i] > 0 {
            assert(a[a.len() - 1] > 0);
            assert forall|i: int| 0 <= i < s.len() implies #[trigger] s[i] > 0 by {
                assert(a[i] > 0);
            }
            assert(p * x > 0) by (nonlinear_arith)
                requires
                    p > 0,
                    x > 0,
            ;
            if exists|i: int| 0 <= i < a.len() && #[trigger] a[i] < b[i] {
                let k = choose|i: int| 0 <= i < a.len() && #[trigger] a[i] < b[i];
                if k < s.len() {
                    assert(s[k] < t[k]);
                }
                assert(p < q || x < y);
                assert(p * x < q * y) by (nonlinear_arith)
                    requires
                        0 < p <= q,
                        0 < x <= y,
                        p < q || x < y,
                ;
            }
        }
    }
}

// ---------------------------------------------------------------------------
// Laws
// ---------------------------------------------------------------------------

/// One more factor multiplies a product, and the product of nothing is one.
pub proof fn law_factors_multiply(factors: Seq<nat>, x: nat)
    ensures
        product(factors.push(x)) == product(factors) * x,
        product(Seq::empty()) == 1,
{
    assert(factors.push(x).drop_last() =~= factors);
}

} // verus!
