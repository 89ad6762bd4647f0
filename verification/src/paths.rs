//! Paths as text, and their components. A separator is `/`: on a system with another
//! one, paths are handed in with `/` in its place.

use crate::text::{cut_all, has_prefix, law_cut_parts, same_chars, string_of};
use vstd::prelude::*;
use vstd::slice::slice_subrange;

verus! {

/// Where the run of characters from index `k` on that are no separators ends.
pub open spec fn part_end(s: Seq<char>, k: int) -> int
    decreases s.len() - k,
{
    if 0 <= k < s.len() && s[k] != '/' {
        part_end(s, k + 1)
    } else {
        k
    }
}

/// A run ends behind its start, and within the text.
pub proof fn lemma_part_end(s: Seq<char>, k: int)
    requires
        0 <= k <= s.len(),
    ensures
        k <= part_end(s, k) <= s.len(),
        part_end(s, k) < s.len() ==> s[part_end(s, k)] == '/',
    decreases s.len() - k,
{
    if k < s.len() && s[k] != '/' {
        lemma_part_end(s, k + 1);
    }
}

/// Where the components of a path stand from index `k` on, each by its start and its
/// end. Empty parts are none, nor is `.` but at the start of a relative path.
pub open spec fn spans_from(s: Seq<char>, k: int) -> Seq<(int, int)>
    decreases s.len() - k,
    via spans_from_ends
{
    if k < 0 || k >= s.len() {
        Seq::empty()
    } else if s[k] == '/' {
        (if k == 0 {
            seq![(0int, 1int)]
        } else {
            Seq::empty()
        }) + spans_from(s, k + 1)
    } else {
        let e = part_end(s, k);
        (if k > 0 && s.subrange(k, e) == seq!['.'] {
            Seq::empty()
        } else {
            seq![(k, e)]
        }) + spans_from(s, e)
    }
}

#[via_fn]
proof fn spans_from_ends(s: Seq<char>, k: int) {
    if 0 <= k < s.len() && s[k] != '/' {
        lemma_part_end(s, k + 1);
        assert(part_end(s, k) == part_end(s, k + 1));
    }
}

/// Where the components of a path stand. The root of an absolute path is its first
/// component.
pub open spec fn spans(s: Seq<char>) -> Seq<(int, int)> {
    spans_from(s, 0)
}

/// The components of a path.
pub open spec fn components(s: Seq<char>) -> Seq<Seq<char>> {
    spans(s).map_values(|p: (int, int)| s.subrange(p.0, p.1))
}

/// Whether a path starts with another, component by component.
pub open spec fn path_starts_with(path: Seq<char>, base: Seq<char>) -> bool {
    let (p, b) = (components(path), components(base));
    b.len() <= p.len() && p.take(b.len() as int) == b
}

/// What is left of a path behind another that it starts with, without separators at
/// either end.
pub open spec fn path_behind(path: Seq<char>, base: Seq<char>) -> Option<Seq<char>> {
    if !path_starts_with(path, base) {
        None
    } else {
        let all = spans(path);
        let n = components(base).len() as int;
        if n == all.len() {
            Some(Seq::empty())
        } else {
            Some(path.subrange(all[n].0, all.last().1))
        }
    }
}

/// The integers that a list of spans holds.
pub open spec fn span_views(list: Seq<(usize, usize)>) -> Seq<(int, int)> {
    list.map_values(|p: (usize, usize)| (p.0 as int, p.1 as int))
}

/// Components stand one behind the other, within the text.
pub proof fn lemma_spans(s: Seq<char>, k: int)
    requires
        0 <= k <= s.len(),
    ensures
        forall|i: int|
            0 <= i < spans_from(s, k).len() ==> k <= (#[trigger] spans_from(s, k)[i]).0 < spans_from(
                s,
                k,
            )[i].1 <= s.len(),
        forall|i: int, j: int|
            0 <= i < j < spans_from(s, k).len() ==> (#[trigger] spans_from(s, k)[i]).1 <= (
            #[trigger] spans_from(s, k)[j]).0,
    decreases s.len() - k,
{
    if k < s.len() {
        let all = spans_from(s, k);
        if s[k] == '/' {
            lemma_spans(s, k + 1);
            let rest = spans_from(s, k + 1);
            let head = all.len() - rest.len();
            assert forall|i: int| 0 <= i < all.len() implies k <= (#[trigger] all[i]).0
                < all[i].1 <= s.len() by {
                if i >= head {
                    assert(all[i] == rest[i - head]);
                }
            }
            assert forall|i: int, j: int| 0 <= i < j < all.len() implies (#[trigger] all[i]).1 <= (
            #[trigger] all[j]).0 by {
                assert(all[j] == rest[j - head]);
                if i >= head {
                    assert(all[i] == rest[i - head]);
                }
            }
        } else {
            lemma_part_end(s, k + 1);
            let e = part_end(s, k);
            assert(e == part_end(s, k + 1));
            lemma_spans(s, e);
            let rest = spans_from(s, e);
            let head = all.len() - rest.len();
            assert forall|i: int| 0 <= i < all.len() implies k <= (#[trigger] all[i]).0
                < all[i].1 <= s.len() by {
                if i >= head {
                    assert(all[i] == rest[i - head]);
                }
            }
            assert forall|i: int, j: int| 0 <= i < j < all.len() implies (#[trigger] all[i]).1 <= (
            #[trigger] all[j]).0 by {
                assert(all[j] == rest[j - head]);
                if i >= head {
                    assert(all[i] == rest[i - head]);
                }
            }
        }
    }
}

/// Finds the components of a path.
pub fn find_spans(s: &[char]) -> (out: Vec<(usize, usize)>)
    ensures
        span_views(out@) == spans(s@),
{
    let mut out: Vec<(usize, usize)> = Vec::new();
    let mut k: usize = 0;
    let dot: Vec<char> = vec!['.'];
    assert(dot@ =~= seq!['.']);
    assert(span_views(out@) + spans_from(s@, 0) =~= spans(s@));
    while k < s.len()
        invariant
            k <= s@.len(),
            dot@ == seq!['.'],
            span_views(out@) + spans_from(s@, k as int) == spans(s@),
        decreases s@.len() - k,
    {
        let ghost before = out@;
        let ghost at = k as int;
        if s[k] == '/' {
            if k == 0 {
                out.push((0, 1));
                assert(span_views(out@) =~= span_views(before).push((0int, 1int)));
            }
            k = k + 1;
        } else {
            let mut e: usize = k;
            while e < s.len() && s[e] != '/'
                invariant
                    k <= e <= s@.len(),
                    part_end(s@, k as int) == part_end(s@, e as int),
                decreases s@.len() - e,
            {
                e = e + 1;
            }
            let part = slice_subrange(s, k, e);
            assert(part@ =~= s@.subrange(k as int, e as int));
            if k == 0 || !same_chars(part, dot.as_slice()) {
                out.push((k, e));
                assert(span_views(out@) =~= span_views(before).push((k as int, e as int)));
            }
            proof {
                lemma_part_end(s@, k + 1);
                assert(part_end(s@, k as int) == part_end(s@, k + 1));
            }
            k = e;
        }
        assert(span_views(out@) + spans_from(s@, k as int) =~= span_views(before) + spans_from(
            s@,
            at,
        ));
    }
    assert(span_views(out@) + spans_from(s@, k as int) =~= span_views(out@));
    out
}

/// Whether a path starts with another, given where the components of both stand.
fn leads(path: &[char], p: &Vec<(usize, usize)>, base: &[char], b: &Vec<(usize, usize)>) -> (out:
    bool)
    requires
        span_views(p@) == spans(path@),
        span_views(b@) == spans(base@),
    ensures
        out == path_starts_with(path@, base@),
{
    let ghost (x, y) = (components(path@), components(base@));
    proof {
        assert(x.len() == p@.len() && y.len() == b@.len()) by {
            assert(span_views(p@).len() == p@.len());
            assert(span_views(b@).len() == b@.len());
        }
        lemma_spans(path@, 0);
        lemma_spans(base@, 0);
    }
    if b.len() > p.len() {
        return false;
    }
    let mut i: usize = 0;
    while i < b.len()
        invariant
            i <= b@.len() <= p@.len(),
            span_views(p@) == spans(path@),
            span_views(b@) == spans(base@),
            x == components(path@),
            y == components(base@),
            x.len() == p@.len(),
            y.len() == b@.len(),
            forall|k: int| 0 <= k < i ==> #[trigger] x[k] == y[k],
        decreases b@.len() - i,
    {
        proof {
            lemma_spans(path@, 0);
            lemma_spans(base@, 0);
            assert(span_views(p@)[i as int] == (p@[i as int].0 as int, p@[i as int].1 as int));
            assert(span_views(b@)[i as int] == (b@[i as int].0 as int, b@[i as int].1 as int));
            assert(spans(path@)[i as int].0 <= spans(path@)[i as int].1);
            assert(spans(base@)[i as int].0 <= spans(base@)[i as int].1);
        }
        let one = slice_subrange(path, p[i].0, p[i].1);
        let other = slice_subrange(base, b[i].0, b[i].1);
        assert(one@ == x[i as int]);
        assert(other@ == y[i as int]);
        if !same_chars(one, other) {
            proof {
                if path_starts_with(path@, base@) {
                    assert(x.take(b@.len() as int)[i as int] == y[i as int]);
                }
            }
            return false;
        }
        i = i + 1;
    }
    assert(x.take(b@.len() as int) =~= y);
    true
}

/// Whether a path starts with another, component by component.
pub fn starts_with_path(path: &[char], base: &[char]) -> (out: bool)
    ensures
        out == path_starts_with(path@, base@),
{
    let p = find_spans(path);
    let b = find_spans(base);
    leads(path, &p, base, &b)
}

/// How many components a path has.
pub fn depth_of(path: &[char]) -> (n: usize)
    ensures
        n == components(path@).len(),
{
    let p = find_spans(path);
    assert(span_views(p@).len() == p@.len());
    p.len()
}

/// What is left of a path behind another that it starts with.
pub fn strip_base(path: &[char], base: &[char]) -> (out: Option<String>)
    ensures
        crate::text::opt_text(out) == path_behind(path@, base@),
{
    let p = find_spans(path);
    let b = find_spans(base);
    proof {
        assert(span_views(p@).len() == p@.len());
        assert(span_views(b@).len() == b@.len());
        lemma_spans(path@, 0);
    }
    if !leads(path, &p, base, &b) {
        return None;
    }
    let n: usize = b.len();
    if n == p.len() {
        let empty = String::new();
        assert(empty@ =~= Seq::empty());
        return Some(empty);
    }
    let last: usize = p.len() - 1;
    proof {
        let all = spans(path@);
        assert(span_views(p@)[n as int] == all[n as int]);
        assert(span_views(p@)[last as int] == all[last as int]);
        assert(all[n as int].0 < all[n as int].1);
        assert(all[last as int].0 < all[last as int].1);
        if n < last {
            assert(all[n as int].1 <= all[last as int].0);
        }
    }
    let rest = slice_subrange(path, p[n].0, p[last].1);
    Some(string_of(rest))
}

/// A path starts with itself, and nothing is left of it.
pub proof fn law_path_leads_itself(path: Seq<char>)
    ensures
        path_starts_with(path, path),
        path_behind(path, path) == Some(Seq::<char>::empty()),
{
    let c = components(path);
    assert(c.take(c.len() as int) =~= c);
}

/// What a path starts with, whatever starts with the path starts with too.
pub proof fn law_leading_chains(a: Seq<char>, b: Seq<char>, c: Seq<char>)
    requires
        path_starts_with(b, a),
        path_starts_with(c, b),
    ensures
        path_starts_with(c, a),
{
    let (x, y, z) = (components(a), components(b), components(c));
    assert(z.take(x.len() as int) =~= z.take(y.len() as int).take(x.len() as int));
}

// ---------------------------------------------------------------------------
// Laws
// ---------------------------------------------------------------------------

/// Whether a path is spelled in the canonical way: from the root on, with one separator
/// between names, none at the end, and no name `.`.
pub open spec fn canonical(s: Seq<char>) -> bool {
    &&& s.len() > 0
    &&& s[0] == '/'
    &&& s.len() > 1 ==> s.last() != '/'
    &&& forall|i: int|
        1 <= i < s.len() && #[trigger] s[i - 1] == '/' ==> s[i] != '/' && !(s[i] == '.' && (i + 1
            == s.len() || s[i + 1] == '/'))
}

/// The components of a canonical path are its root and the names between its separators.
pub proof fn law_names_are_components(s: Seq<char>)
    requires
        canonical(s),
    ensures
        s.len() > 1 ==> components(s) == seq![seq!['/']] + cut_all(s.skip(1), '/'),
        s.len() == 1 ==> components(s) == seq![seq!['/']],
{
    let f = |p: (int, int)| s.subrange(p.0, p.1);
    assert(s.subrange(0, 1) =~= seq!['/']);
    if s.len() > 1 {
        assert(s[1 - 1] == '/');
        lemma_canonical_from(s, 1);
        assert(spans(s) == seq![(0int, 1int)] + spans_from(s, 1));
        assert(components(s) =~= seq![seq!['/']] + spans_from(s, 1).map_values(f));
    } else {
        assert(spans_from(s, 1) =~= Seq::empty());
        assert(components(s) =~= seq![seq!['/']]);
    }
}

/// From the start of a name on, the components of a canonical path are the names.
proof fn lemma_canonical_from(s: Seq<char>, k: int)
    requires
        canonical(s),
        1 <= k < s.len(),
        s[k - 1] == '/',
    ensures
        spans_from(s, k).map_values(|p: (int, int)| s.subrange(p.0, p.1)) == cut_all(s.skip(k), '/'),
        spans_from(s, k).len() > 0,
        spans_from(s, k)[0].0 == k,
        spans_from(s, k).last().1 == s.len(),
    decreases s.len() - k,
{
    let f = |p: (int, int)| s.subrange(p.0, p.1);
    let e = part_end(s, k);
    lemma_part_end(s, k);
    lemma_part_span(s, k);
    assert(s[k] != '/');
    assert(e > k) by {
        lemma_part_end(s, k + 1);
    }
    let name = s.subrange(k, e);
    if name == seq!['.'] {
        assert(name.len() == 1);
        assert(name[0] == s[k]);
    }
    assert(!name.contains('/')) by {
        assert forall|i: int| 0 <= i < name.len() implies name[i] != '/' by {
            assert(s[k + i] != '/');
        }
    }
    if e < s.len() {
        assert(s[e] == '/');
        assert(e + 1 < s.len()) by {
            if e + 1 == s.len() {
                assert(s.last() == s[e]);
            }
        }
        assert(s[(e + 1) - 1] == '/');
        lemma_canonical_from(s, e + 1);
        let rest = s.skip(e + 1);
        assert(s.skip(k) =~= name + seq!['/'] + rest);
        law_cut_parts(name, '/', rest, 2);
        assert(spans_from(s, e) =~= spans_from(s, e + 1));
        assert(spans_from(s, k) =~= seq![(k, e)] + spans_from(s, e + 1));
        assert(spans_from(s, k).map_values(f) =~= seq![name] + spans_from(s, e + 1).map_values(f));
    } else {
        assert(s.skip(k) =~= name);
        law_cut_parts(name, '/', Seq::empty(), 2);
        assert(spans_from(s, e) =~= Seq::empty());
        assert(spans_from(s, k) =~= seq![(k, e)]);
        assert(spans_from(s, k).map_values(f) =~= seq![name]);
    }
}

/// Within a run there is no separator.
proof fn lemma_part_span(s: Seq<char>, k: int)
    requires
        0 <= k <= s.len(),
    ensures
        forall|i: int| k <= i < part_end(s, k) ==> s[i] != '/',
    decreases s.len() - k,
{
    if k < s.len() && s[k] != '/' {
        lemma_part_span(s, k + 1);
    }
}

/// Where a separator stands, a path parts: the components are those before it and those
/// from it on.
proof fn lemma_spans_part(s: Seq<char>, m: int, k: int)
    requires
        0 <= k <= m < s.len(),
        s[m] == '/',
    ensures
        spans_from(s, k) == spans_from(s.take(m), k) + spans_from(s, m),
    decreases m - k,
{
    let t = s.take(m);
    if k == m {
        assert(spans_from(t, k) =~= Seq::empty());
        assert(spans_from(s, k) =~= spans_from(t, k) + spans_from(s, m));
    } else if s[k] == '/' {
        assert(t[k] == '/');
        lemma_spans_part(s, m, k + 1);
        assert(spans_from(s, k) =~= spans_from(t, k) + spans_from(s, m));
    } else {
        assert(t[k] != '/');
        lemma_same_end(s, m, k);
        lemma_part_end(s, k + 1);
        lemma_part_end(t, k + 1);
        let e = part_end(s, k);
        assert(e == part_end(s, k + 1));
        lemma_part_end(t, k);
        lemma_spans_part(s, m, e);
        assert(s.subrange(k, e) =~= t.subrange(k, e));
        assert(spans_from(s, k) =~= spans_from(t, k) + spans_from(s, m));
    }
}

/// A run before a separator ends where it ends without what follows.
proof fn lemma_same_end(s: Seq<char>, m: int, k: int)
    requires
        0 <= k <= m < s.len(),
        s[m] == '/',
    ensures
        part_end(s, k) == part_end(s.take(m), k),
    decreases m - k,
{
    if k < m && s[k] != '/' {
        assert(s.take(m)[k] == s[k]);
        lemma_same_end(s, m, k + 1);
    } else if k < m {
        assert(s.take(m)[k] == s[k]);
    }
}

/// Whatever lies below a directory starts with it.
pub proof fn law_what_lies_below_is_inside(dir: Seq<char>, rest: Seq<char>)
    requires
        dir.len() > 0,
    ensures
        path_starts_with(dir + seq!['/'] + rest, dir),
        path_starts_with(dir, dir),
        components(dir).len() <= components(dir + seq!['/'] + rest).len(),
{
    let s = dir + seq!['/'] + rest;
    let m = dir.len() as int;
    law_path_leads_itself(dir);
    lemma_spans_part(s, m, 0);
    assert(s.take(m) =~= dir);
    lemma_spans(dir, 0);
    let (p, b) = (components(s), components(dir));
    assert forall|i: int| 0 <= i < b.len() implies #[trigger] p[i] == b[i] by {
        assert(spans(s)[i] == spans(dir)[i]);
        assert(spans_from(dir, 0)[i].1 <= dir.len());
        assert(s.subrange(spans(s)[i].0, spans(s)[i].1) =~= dir.subrange(
            spans(dir)[i].0,
            spans(dir)[i].1,
        ));
    }
    assert(p.take(b.len() as int) =~= b);
}

/// A canonical path below a directory is deeper than the directory, and what is left of it
/// behind the directory is what the directory's path and a separator leave.
pub proof fn law_below_is_deeper(dir: Seq<char>, rest: Seq<char>)
    requires
        dir.len() > 0,
        rest.len() > 0,
        canonical(dir + seq!['/'] + rest),
    ensures
        components(dir + seq!['/'] + rest).len() > components(dir).len(),
        path_behind(dir + seq!['/'] + rest, dir) == Some(rest),
{
    let s = dir + seq!['/'] + rest;
    let m = dir.len() as int;
    law_what_lies_below_is_inside(dir, rest);
    lemma_spans_part(s, m, 0);
    assert(s.take(m) =~= dir);
    assert(s[m] == '/');
    assert(spans_from(s, m) =~= spans_from(s, m + 1));
    assert(s[(m + 1) - 1] == '/');
    lemma_canonical_from(s, m + 1);
    let all = spans(s);
    let n = components(dir).len() as int;
    assert(all =~= spans(dir) + spans_from(s, m + 1));
    assert(all[n] == spans_from(s, m + 1)[0]);
    assert(all.last() == spans_from(s, m + 1).last());
    assert(s.subrange(m + 1, s.len() as int) =~= rest);
}

/// A canonical path starts with another only where it is that path, or goes on right behind
/// it with a separator.
pub proof fn law_inside_is_below(path: Seq<char>, dir: Seq<char>)
    requires
        canonical(path),
        canonical(dir),
        path_starts_with(path, dir),
    ensures
        path == dir || dir == seq!['/'] || has_prefix(path, dir + seq!['/']),
{
    law_names_are_components(path);
    law_names_are_components(dir);
    if dir.len() == 1 {
        assert(dir =~= seq!['/']);
    } else {
        let (p, b) = (components(path), components(dir));
        let (x, y) = (dir.skip(1), path.skip(1));
        lemma_cut_filled(x);
        assert(b.len() >= 2);
        assert(path.len() > 1);
        let (cx, cy) = (cut_all(x, '/'), cut_all(y, '/'));
        assert(cy.len() >= cx.len());
        assert forall|i: int| 0 <= i < cx.len() implies cx[i] == cy[i] by {
            assert(b[i + 1] == cx[i]);
            assert(p[i + 1] == cy[i]);
            assert(p.take(b.len() as int)[i + 1] == b[i + 1]);
        }
        lemma_cut_prefix(x, y);
        assert(dir =~= seq!['/'] + x);
        assert(path =~= seq!['/'] + y);
        if y == x {
        } else {
            assert((seq!['/'] + y).take(dir.len() as int + 1) =~= dir + seq!['/']);
        }
    }
}

/// A text is cut into one part at least.
proof fn lemma_cut_filled(s: Seq<char>)
    ensures
        cut_all(s, '/').len() >= 1,
{
}

/// A text whose parts begin with the parts of another is that other, or goes on behind it
/// with a separator.
proof fn lemma_cut_prefix(x: Seq<char>, y: Seq<char>)
    requires
        cut_all(x, '/').len() <= cut_all(y, '/').len(),
        forall|i: int|
            0 <= i < cut_all(x, '/').len() ==> cut_all(x, '/')[i] == cut_all(y, '/')[i],
    ensures
        y == x || (x.len() < y.len() && y.take(x.len() as int) == x && y[x.len() as int] == '/'),
    decreases x.len(),
{
    lemma_first_part(x);
    lemma_first_part(y);
    let (hx, hy) = (cut_all(x, '/')[0], cut_all(y, '/')[0]);
    assert(hx == hy);
    let h = hx.len() as int;
    if x.contains('/') {
        let (rx, ry) = (x.skip(h + 1), y.skip(h + 1));
        assert(cut_all(x, '/') =~= seq![hx] + cut_all(rx, '/'));
        lemma_cut_filled(rx);
        assert(y.contains('/')) by {
            if !y.contains('/') {
                assert(cut_all(y, '/').len() == 1);
            }
        }
        assert(cut_all(y, '/') =~= seq![hy] + cut_all(ry, '/'));
        assert forall|i: int| 0 <= i < cut_all(rx, '/').len() implies cut_all(rx, '/')[i] == cut_all(
            ry,
            '/',
        )[i] by {
            assert(cut_all(x, '/')[i + 1] == cut_all(y, '/')[i + 1]);
        }
        lemma_cut_prefix(rx, ry);
        assert(x =~= hx + seq!['/'] + rx);
        assert(y =~= hy + seq!['/'] + ry);
        if ry != rx {
            assert(y.take(x.len() as int) =~= x);
            assert(y[x.len() as int] == ry[rx.len() as int]);
        }
    } else {
        assert(x == hx);
        if y.contains('/') {
            assert(y =~= hy + seq!['/'] + y.skip(h + 1));
            assert(y.take(x.len() as int) =~= x);
        }
    }
}

/// The first part of a text is what stands before its first separator.
proof fn lemma_first_part(s: Seq<char>)
    ensures
        cut_all(s, '/').len() >= 1,
        !s.contains('/') ==> cut_all(s, '/') == seq![s],
        s.contains('/') ==> {
            let h = cut_all(s, '/')[0];
            &&& h.len() < s.len()
            &&& s == h + seq!['/'] + s.skip(h.len() as int + 1)
            &&& cut_all(s, '/') == seq![h] + cut_all(s.skip(h.len() as int + 1), '/')
        },
{
    if s.contains('/') {
        let k = lemma_first_place(s, 0);
        let a = s.take(k);
        let b = s.skip(k + 1);
        assert(!a.contains('/'));
        assert(s =~= a + seq!['/'] + b);
        law_cut_parts(a, '/', b, 2);
    } else {
        law_cut_parts(s, '/', Seq::empty(), 2);
    }
}

/// The first place from `k` on at which a separator stands.
proof fn lemma_first_place(s: Seq<char>, k: int) -> (e: int)
    requires
        0 <= k <= s.len(),
        s.contains('/'),
        forall|i: int| 0 <= i < k ==> s[i] != '/',
    ensures
        0 <= e < s.len(),
        s[e] == '/',
        forall|i: int| 0 <= i < e ==> s[i] != '/',
    decreases s.len() - k,
{
    if k == s.len() {
        let i = choose|i: int| 0 <= i < s.len() && s[i] == '/';
        assert(s[i] != '/');
        0
    } else if s[k] == '/' {
        k
    } else {
        lemma_first_place(s, k + 1)
    }
}

/// The last component of a canonical path is the name behind its last separator.
pub proof fn law_the_last_name_is_last(dir: Seq<char>, name: Seq<char>)
    requires
        canonical(dir + seq!['/'] + name),
        name.len() > 0,
        !name.contains('/'),
    ensures
        components(dir + seq!['/'] + name).len() > 0,
        components(dir + seq!['/'] + name).last() == name,
{
    let s = dir + seq!['/'] + name;
    let m = dir.len() as int;
    assert(s[(m + 1) - 1] == '/');
    lemma_canonical_from(s, m + 1);
    assert(s.skip(m + 1) =~= name);
    law_cut_parts(name, '/', Seq::empty(), 2);
    lemma_spans_part(s, m, 0);
    if m == 0 {
        assert(spans(s) == seq![(0int, 1int)] + spans_from(s, 1));
    } else {
        assert(spans_from(s, m) =~= spans_from(s, m + 1));
    }
    let last = spans_from(s, m + 1);
    assert(last.len() == 1) by {
        assert(last.map_values(|p: (int, int)| s.subrange(p.0, p.1)).len() == last.len());
    }
    assert(spans(s).last() == last[0]);
    assert(last.map_values(|p: (int, int)| s.subrange(p.0, p.1))[0] == name);
}

/// A path leads to the same place with a separator behind it, and with a separator and a
/// single dot behind it.
pub proof fn law_ends_of_paths_do_not_count(s: Seq<char>)
    requires
        s.len() > 0,
    ensures
        components(s + seq!['/']) == components(s),
        components(s + seq!['/', '.']) == components(s),
{
    let m = s.len() as int;
    let (a, b) = (s + seq!['/'], s + seq!['/', '.']);
    lemma_spans_part(a, m, 0);
    lemma_spans_part(b, m, 0);
    assert(a.take(m) =~= s);
    assert(b.take(m) =~= s);
    assert(spans_from(a, m + 1) =~= Seq::empty());
    assert(spans_from(a, m) =~= Seq::empty());
    assert(part_end(b, m + 2) == m + 2);
    assert(part_end(b, m + 1) == m + 2);
    assert(b.subrange(m + 1, m + 2) =~= seq!['.']);
    assert(spans_from(b, m + 2) =~= Seq::empty());
    assert(spans_from(b, m + 1) =~= Seq::empty());
    assert(spans_from(b, m) =~= Seq::empty());
    lemma_spans(s, 0);
    assert forall|i: int| 0 <= i < spans(s).len() implies #[trigger] components(a)[i] == components(
        s,
    )[i] && components(b)[i] == components(s)[i] by {
        let p = spans(s)[i];
        assert(a.subrange(p.0, p.1) =~= s.subrange(p.0, p.1));
        assert(b.subrange(p.0, p.1) =~= s.subrange(p.0, p.1));
    }
    assert(components(a) =~= components(s));
    assert(components(b) =~= components(s));
}

} // verus!
