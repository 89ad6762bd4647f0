//! Text as sequences of characters: the string operations the rest of the
//! crate is built from, each with its mathematical counterpart.

use vstd::prelude::*;
use vstd::slice::slice_subrange;
use vstd::string::StringExecFns;
use vstd::utf8::{decode_utf8, valid_utf8};

verus! {

/// `String::push` appends one character to the end of the string.
pub assume_specification[ String::push ](s: &mut String, c: char)
    ensures
        final(s)@ == old(s)@.push(c),
;

/// What `str::to_lowercase` makes of a text: the Unicode lowercase mapping,
/// which may change the number of characters.
pub uninterp spec fn lowercased(s: Seq<char>) -> Seq<char>;

/// Calls `str::to_lowercase`. Nothing is claimed of the mapping but that it is
/// a function of the text.
#[verifier::external_body]
pub(crate) fn lowercase(s: &str) -> (out: String)
    ensures
        out@ == lowercased(s@),
{
    s.to_lowercase()
}

/// What `String::from_utf8_lossy` makes of bytes: every part that is no UTF-8 is
/// replaced by U+FFFD.
pub uninterp spec fn lossy(bytes: Seq<u8>) -> Seq<char>;

/// Calls `String::from_utf8_lossy`. Bytes that are UTF-8 are read as they are;
/// which parts of others are replaced is not said, but that it is a function of
/// the bytes.
#[verifier::external_body]
pub(crate) fn lossy_text(bytes: &[u8]) -> (out: String)
    ensures
        out@ == lossy(bytes@),
        valid_utf8(bytes@) ==> out@ == decode_utf8(bytes@),
{
    String::from_utf8_lossy(bytes).into_owned()
}

/// Calls `String::from_utf8`: the text that bytes encode in UTF-8, and nothing
/// where they are no UTF-8.
#[verifier::external_body]
pub(crate) fn strict_text(bytes: &[u8]) -> (out: Option<String>)
    ensures
        match out {
            Some(s) => valid_utf8(bytes@) && s@ == decode_utf8(bytes@),
            None => !valid_utf8(bytes@),
        },
{
    String::from_utf8(bytes.to_vec()).ok()
}

// ---------------------------------------------------------------------------
// Strings and characters
// ---------------------------------------------------------------------------

/// The texts that a list of character slices holds.
pub open spec fn views(parts: Seq<&[char]>) -> Seq<Seq<char>> {
    parts.map_values(|p: &[char]| p@)
}

/// The texts that a list of strings holds.
pub open spec fn texts(parts: Seq<String>) -> Seq<Seq<char>> {
    parts.map_values(|p: String| p@)
}

/// The text that an optional string holds.
pub open spec fn opt_text(s: Option<String>) -> Option<Seq<char>> {
    match s {
        Some(t) => Some(t@),
        None => None,
    }
}

/// The text that an optional string slice holds.
pub open spec fn opt_str(s: Option<&str>) -> Option<Seq<char>> {
    match s {
        Some(t) => Some(t@),
        None => None,
    }
}

/// The characters of a string, in order.
pub fn chars_of(s: &str) -> (out: Vec<char>)
    ensures
        out@ == s@,
{
    let mut out: Vec<char> = Vec::new();
    for c in it: s.chars()
        invariant
            out@ == it.seq().take(it.index()),
            it.seq() == s@,
    {
        out.push(c);
    }
    out
}

/// The string made of the given characters.
pub fn string_of(chars: &[char]) -> (out: String)
    ensures
        out@ == chars@,
{
    let mut out = String::new();
    let mut i: usize = 0;
    while i < chars.len()
        invariant
            i <= chars@.len(),
            out@ == chars@.take(i as int),
        decreases chars@.len() - i,
    {
        out.push(chars[i]);
        i = i + 1;
        assert(chars@.take(i as int) =~= chars@.take(i - 1).push(chars@[i - 1]));
    }
    assert(chars@.take(i as int) =~= chars@);
    out
}

/// Whether two strings hold the same characters.
pub fn str_eq(a: &str, b: &str) -> (same: bool)
    ensures
        same == (a@ == b@),
{
    a.to_owned() == b.to_owned()
}

/// Whether an optional string holds exactly the given text.
pub fn opt_is(s: &Option<String>, wanted: &str) -> (same: bool)
    ensures
        same == (opt_text(*s) == Some(wanted@)),
{
    match s {
        Some(t) => str_eq(t.as_str(), wanted),
        None => false,
    }
}

/// Whether two character slices hold the same characters.
pub fn same_chars(a: &[char], b: &[char]) -> (same: bool)
    ensures
        same == (a@ == b@),
{
    if a.len() != b.len() {
        return false;
    }
    let mut i: usize = 0;
    while i < a.len()
        invariant
            a@.len() == b@.len(),
            i <= a@.len(),
            forall|k: int| 0 <= k < i ==> a@[k] == b@[k],
        decreases a@.len() - i,
    {
        if a[i] != b[i] {
            return false;
        }
        i = i + 1;
    }
    assert(a@ =~= b@);
    true
}

/// A copy of an optional string.
pub fn copy_opt(s: &Option<String>) -> (out: Option<String>)
    ensures
        opt_text(out) == opt_text(*s),
{
    match s {
        Some(t) => Some(t.clone()),
        None => None,
    }
}

// ---------------------------------------------------------------------------
// White space
// ---------------------------------------------------------------------------

/// The characters with the Unicode property `White_Space`.
pub open spec fn white(c: char) -> bool {
    let u = c as u32;
    ||| 0x9 <= u <= 0xD
    ||| u == 0x20
    ||| u == 0x85
    ||| u == 0xA0
    ||| u == 0x1680
    ||| 0x2000 <= u <= 0x200A
    ||| u == 0x2028
    ||| u == 0x2029
    ||| u == 0x202F
    ||| u == 0x205F
    ||| u == 0x3000
}

/// Whether a character is white space.
pub fn is_white(c: char) -> (b: bool)
    ensures
        b == white(c),
{
    let u: u32 = c as u32;
    (0x9 <= u && u <= 0xD) || u == 0x20 || u == 0x85 || u == 0xA0 || u == 0x1680 || (0x2000 <= u
        && u <= 0x200A) || u == 0x2028 || u == 0x2029 || u == 0x202F || u == 0x205F || u == 0x3000
}

/// A text without the white space it starts with.
pub open spec fn trimmed_start(s: Seq<char>) -> Seq<char>
    decreases s.len(),
{
    if s.len() > 0 && white(s[0]) {
        trimmed_start(s.skip(1))
    } else {
        s
    }
}

/// A text without the white space it ends with.
pub open spec fn trimmed_end(s: Seq<char>) -> Seq<char>
    decreases s.len(),
{
    if s.len() > 0 && white(s.last()) {
        trimmed_end(s.drop_last())
    } else {
        s
    }
}

/// A text without white space at either end.
pub open spec fn trimmed(s: Seq<char>) -> Seq<char> {
    trimmed_end(trimmed_start(s))
}

/// The text without the white space it starts with.
fn trim_start<'a>(s: &'a [char]) -> (out: &'a [char])
    ensures
        out@ == trimmed_start(s@),
{
    let mut i: usize = 0;
    assert(s@.skip(0) =~= s@);
    while i < s.len() && is_white(s[i])
        invariant
            i <= s@.len(),
            trimmed_start(s@.skip(i as int)) == trimmed_start(s@),
        decreases s@.len() - i,
    {
        assert(s@.skip(i as int).skip(1) =~= s@.skip(i + 1));
        i = i + 1;
    }
    let out = slice_subrange(s, i, s.len());
    assert(out@ =~= s@.skip(i as int));
    out
}

/// The part of the text between leading and trailing white space.
pub fn trim<'a>(s: &'a [char]) -> (out: &'a [char])
    ensures
        out@ == trimmed(s@),
{
    let rest = trim_start(s);
    let mut n: usize = rest.len();
    assert(rest@.take(n as int) =~= rest@);
    while n > 0 && is_white(rest[n - 1])
        invariant
            n <= rest@.len(),
            trimmed_end(rest@.take(n as int)) == trimmed_end(rest@),
        decreases n,
    {
        assert(rest@.take(n as int).drop_last() =~= rest@.take(n - 1));
        n = n - 1;
    }
    let out = slice_subrange(rest, 0, n);
    assert(out@ =~= rest@.take(n as int));
    out
}

/// The text of a string without white space at either end, or `None` where
/// nothing is left.
pub fn trimmed_nonempty(s: &str) -> (out: Option<String>)
    ensures
        opt_text(out) == (if trimmed(s@).len() == 0 {
            None
        } else {
            Some(trimmed(s@))
        }),
{
    let chars = chars_of(s);
    let t = trim(chars.as_slice());
    if t.len() == 0 {
        None
    } else {
        Some(string_of(t))
    }
}

/// Whether a string holds nothing but white space.
pub fn is_blank(s: &str) -> (b: bool)
    ensures
        b == (trimmed(s@).len() == 0),
{
    let chars = chars_of(s);
    trim(chars.as_slice()).len() == 0
}

// ---------------------------------------------------------------------------
// Searching and splitting
// ---------------------------------------------------------------------------

/// The index of the first `c` in a text; the length of the text where there is
/// none.
pub open spec fn index_of(s: Seq<char>, c: char) -> nat
    decreases s.len(),
{
    if s.len() == 0 {
        0
    } else if s[0] == c {
        0
    } else {
        1 + index_of(s.skip(1), c)
    }
}

/// [`index_of`] is the one index at which `c` stands and before which it does
/// not.
pub proof fn lemma_index_of(s: Seq<char>, c: char, k: int)
    requires
        0 <= k <= s.len(),
        forall|j: int| 0 <= j < k ==> s[j] != c,
        k < s.len() ==> s[k] == c,
    ensures
        index_of(s, c) == k,
    decreases s.len(),
{
    if s.len() > 0 && k > 0 {
        assert(s[0] != c);
        assert forall|j: int| 0 <= j < k - 1 implies s.skip(1)[j] != c by {
            assert(s.skip(1)[j] == s[j + 1]);
        }
        lemma_index_of(s.skip(1), c, k - 1);
    }
}

/// The index of the first `c`, or the length where there is none.
pub fn find_char(s: &[char], c: char) -> (k: usize)
    ensures
        k == index_of(s@, c),
        k <= s@.len(),
        k < s@.len() ==> s@[k as int] == c,
        forall|j: int| 0 <= j < k ==> s@[j] != c,
{
    let mut k: usize = 0;
    while k < s.len() && s[k] != c
        invariant
            k <= s@.len(),
            forall|j: int| 0 <= j < k ==> s@[j] != c,
        decreases s@.len() - k,
    {
        k = k + 1;
    }
    proof {
        lemma_index_of(s@, c, k as int);
    }
    k
}

/// The two sides of the first `c` in a text.
pub open spec fn cut_once(s: Seq<char>, c: char) -> Option<(Seq<char>, Seq<char>)> {
    let k = index_of(s, c) as int;
    if k < s.len() {
        Some((s.take(k), s.skip(k + 1)))
    } else {
        None
    }
}

/// The two sides of the first `c`, where there is one.
pub fn split_once<'a>(s: &'a [char], c: char) -> (out: Option<(&'a [char], &'a [char])>)
    ensures
        match out {
            Some((a, b)) => cut_once(s@, c) == Some((a@, b@)),
            None => cut_once(s@, c) is None,
        },
{
    let k = find_char(s, c);
    if k < s.len() {
        let a = slice_subrange(s, 0, k);
        let b = slice_subrange(s, k + 1, s.len());
        assert(a@ =~= s@.take(k as int));
        assert(b@ =~= s@.skip(k + 1));
        Some((a, b))
    } else {
        None
    }
}

/// A text cut at every `c`, into at most `limit` parts; the last part keeps
/// whatever is left. Without a limit a text of `n` characters has at most
/// `n + 1` parts.
pub open spec fn cut_at_most(s: Seq<char>, c: char, limit: nat) -> Seq<Seq<char>>
    decreases s.len(),
{
    let k = index_of(s, c) as int;
    if limit <= 1 || k >= s.len() {
        seq![s]
    } else {
        seq![s.take(k)] + cut_at_most(s.skip(k + 1), c, (limit - 1) as nat)
    }
}

/// A text cut at every `c`.
pub open spec fn cut_all(s: Seq<char>, c: char) -> Seq<Seq<char>> {
    cut_at_most(s, c, s.len() + 1)
}

/// Cuts a text at the first `limit - 1` places where `c` stands.
pub fn split_at_most<'a>(s: &'a [char], c: char, limit: usize) -> (out: Vec<&'a [char]>)
    ensures
        views(out@) == cut_at_most(s@, c, limit as nat),
        out@.len() >= 1,
        limit >= 1 ==> out@.len() <= limit,
{
    let mut out: Vec<&'a [char]> = Vec::new();
    let mut rest: &'a [char] = s;
    let mut left: usize = limit;
    let ghost whole = cut_at_most(s@, c, limit as nat);
    assert(views(out@) + cut_at_most(rest@, c, left as nat) =~= whole);
    while left > 1 && find_char(rest, c) < rest.len()
        invariant
            views(out@) + cut_at_most(rest@, c, left as nat) == whole,
            limit >= 1 ==> left >= 1 && out@.len() + left == limit,
            limit == 0 ==> left == 0 && out@.len() == 0,
        decreases left,
    {
        let k = find_char(rest, c);
        let head = slice_subrange(rest, 0, k);
        let tail = slice_subrange(rest, k + 1, rest.len());
        assert(head@ =~= rest@.take(k as int));
        assert(tail@ =~= rest@.skip(k + 1));
        let ghost before = out@;
        let ghost old_rest = rest@;
        let ghost old_left = left as nat;
        out.push(head);
        rest = tail;
        left = left - 1;
        assert(views(out@) =~= views(before).push(head@));
        assert(cut_at_most(old_rest, c, old_left) == seq![head@] + cut_at_most(
            tail@,
            c,
            left as nat,
        ));
        assert(views(out@) + cut_at_most(rest@, c, left as nat) =~= views(before) + cut_at_most(
            old_rest,
            c,
            old_left,
        ));
    }
    let ghost before = out@;
    out.push(rest);
    assert(cut_at_most(rest@, c, left as nat) == seq![rest@]);
    assert(views(out@) =~= views(before) + seq![rest@]);
    out
}

/// The limit of [`cut_at_most`] does not matter once it exceeds the length of
/// the text.
pub proof fn lemma_cut_limit(s: Seq<char>, c: char, a: nat, b: nat)
    requires
        a > s.len(),
        b > s.len(),
    ensures
        cut_at_most(s, c, a) == cut_at_most(s, c, b),
    decreases s.len(),
{
    let k = index_of(s, c) as int;
    if k < s.len() {
        lemma_cut_limit(s.skip(k + 1), c, (a - 1) as nat, (b - 1) as nat);
    }
}

/// Cuts a text at every `c`.
pub fn split_all<'a>(s: &'a [char], c: char) -> (out: Vec<&'a [char]>)
    ensures
        views(out@) == cut_all(s@, c),
        out@.len() >= 1,
{
    let mut out: Vec<&'a [char]> = Vec::new();
    let mut rest: &'a [char] = s;
    assert(views(out@) + cut_all(rest@, c) =~= cut_all(s@, c));
    while find_char(rest, c) < rest.len()
        invariant
            views(out@) + cut_all(rest@, c) == cut_all(s@, c),
        decreases rest@.len(),
    {
        let k = find_char(rest, c);
        let head = slice_subrange(rest, 0, k);
        let tail = slice_subrange(rest, k + 1, rest.len());
        assert(head@ =~= rest@.take(k as int));
        assert(tail@ =~= rest@.skip(k + 1));
        let ghost before = out@;
        proof {
            lemma_cut_limit(tail@, c, rest@.len(), tail@.len() + 1);
        }
        assert(cut_all(rest@, c) == seq![head@] + cut_all(tail@, c));
        out.push(head);
        assert(views(out@) =~= views(before).push(head@));
        assert(views(out@) + cut_all(tail@, c) =~= views(before) + cut_all(rest@, c));
        rest = tail;
    }
    let ghost before = out@;
    out.push(rest);
    assert(cut_all(rest@, c) == seq![rest@]);
    assert(views(out@) =~= views(before) + seq![rest@]);
    out
}

/// A text without one trailing carriage return.
pub open spec fn without_cr(s: Seq<char>) -> Seq<char> {
    if s.len() > 0 && s.last() == '\r' {
        s.drop_last()
    } else {
        s
    }
}

/// The lines of a text. A line ends in `\n` or `\r\n`, neither of which is part
/// of it; a last line may lack its ending, and an empty one is no line.
pub open spec fn lines_of(s: Seq<char>) -> Seq<Seq<char>>
    decreases s.len(),
{
    let k = index_of(s, '\n') as int;
    if s.len() == 0 {
        Seq::empty()
    } else if k >= s.len() {
        seq![s]
    } else {
        seq![without_cr(s.take(k))] + lines_of(s.skip(k + 1))
    }
}

/// Cuts a text into its lines.
pub fn lines<'a>(s: &'a [char]) -> (out: Vec<&'a [char]>)
    ensures
        views(out@) == lines_of(s@),
{
    let mut out: Vec<&'a [char]> = Vec::new();
    let mut rest: &'a [char] = s;
    assert(views(out@) + lines_of(rest@) =~= lines_of(s@));
    while rest.len() > 0
        invariant
            views(out@) + lines_of(rest@) == lines_of(s@),
        decreases rest@.len(),
    {
        let k = find_char(rest, '\n');
        let ghost before = out@;
        if k < rest.len() {
            let end: usize = if k > 0 && rest[k - 1] == '\r' {
                k - 1
            } else {
                k
            };
            let head = slice_subrange(rest, 0, end);
            let tail = slice_subrange(rest, k + 1, rest.len());
            assert(head@ =~= without_cr(rest@.take(k as int)));
            assert(tail@ =~= rest@.skip(k + 1));
            assert(lines_of(rest@) == seq![head@] + lines_of(tail@));
            out.push(head);
            assert(views(out@) =~= views(before).push(head@));
            assert(views(out@) + lines_of(tail@) =~= views(before) + lines_of(rest@));
            rest = tail;
        } else {
            out.push(rest);
            assert(lines_of(rest@) == seq![rest@]);
            assert(views(out@) =~= views(before) + seq![rest@]);
            let nothing = slice_subrange(rest, rest.len(), rest.len());
            assert(nothing@ =~= Seq::<char>::empty());
            assert(views(out@) + lines_of(nothing@) =~= views(out@));
            rest = nothing;
        }
    }
    assert(views(out@) + lines_of(rest@) =~= views(out@));
    out
}

/// Whether `p` stands in `s` at index `k`.
pub open spec fn occurs_at(s: Seq<char>, p: Seq<char>, k: int) -> bool {
    0 <= k && k + p.len() <= s.len() && s.subrange(k, k + p.len()) == p
}

/// Whether `p` stands in `s` at index `k`.
pub fn stands_at(s: &[char], p: &[char], k: usize) -> (b: bool)
    ensures
        b == occurs_at(s@, p@, k as int),
{
    if k > s.len() || s.len() - k < p.len() {
        return false;
    }
    let part = slice_subrange(s, k, k + p.len());
    same_chars(part, p)
}

/// Whether a text starts with another.
pub open spec fn has_prefix(s: Seq<char>, p: Seq<char>) -> bool {
    p.len() <= s.len() && s.take(p.len() as int) == p
}

/// Whether a text ends with another.
pub open spec fn has_suffix(s: Seq<char>, p: Seq<char>) -> bool {
    p.len() <= s.len() && s.skip(s.len() - p.len()) == p
}

/// Whether a text starts with another.
pub fn starts_with(s: &[char], p: &str) -> (b: bool)
    ensures
        b == has_prefix(s@, p@),
{
    let pc = chars_of(p);
    if pc.len() > s.len() {
        return false;
    }
    let head = slice_subrange(s, 0, pc.len());
    assert(head@ =~= s@.take(p@.len() as int));
    same_chars(head, pc.as_slice())
}

/// What follows a prefix.
pub open spec fn after_prefix(s: Seq<char>, p: Seq<char>) -> Option<Seq<char>> {
    if has_prefix(s, p) {
        Some(s.skip(p.len() as int))
    } else {
        None
    }
}

/// What follows a prefix, where the text has it.
pub fn strip_prefix<'a>(s: &'a [char], p: &str) -> (out: Option<&'a [char]>)
    ensures
        match out {
            Some(rest) => after_prefix(s@, p@) == Some(rest@),
            None => after_prefix(s@, p@) is None,
        },
{
    let pc = chars_of(p);
    if starts_with(s, p) {
        let rest = slice_subrange(s, pc.len(), s.len());
        assert(rest@ =~= s@.skip(p@.len() as int));
        Some(rest)
    } else {
        None
    }
}

/// A text without the trailing copies of a suffix.
pub open spec fn without_suffixes(s: Seq<char>, p: Seq<char>) -> Seq<char>
    decreases s.len(),
{
    if p.len() > 0 && has_suffix(s, p) {
        without_suffixes(s.take(s.len() - p.len()), p)
    } else {
        s
    }
}

/// Drops the trailing copies of a suffix.
pub fn trim_suffixes<'a>(s: &'a [char], p: &str) -> (out: &'a [char])
    ensures
        out@ == without_suffixes(s@, p@),
{
    let pc = chars_of(p);
    let mut n: usize = s.len();
    let mut cur: &'a [char] = s;
    if pc.len() == 0 {
        return s;
    }
    while n >= pc.len() && stands_at(cur, pc.as_slice(), n - pc.len())
        invariant
            pc@ == p@,
            pc@.len() > 0,
            n == cur@.len(),
            without_suffixes(cur@, p@) == without_suffixes(s@, p@),
        decreases n,
    {
        let shorter = slice_subrange(cur, 0, n - pc.len());
        assert(shorter@ =~= cur@.take(n - pc@.len()));
        assert(cur@.skip(n - pc@.len()) =~= cur@.subrange(n - pc@.len(), n as int));
        n = n - pc.len();
        cur = shorter;
    }
    proof {
        if n >= pc@.len() {
            assert(cur@.skip(n - pc@.len()) =~= cur@.subrange(n - pc@.len(), n as int));
        }
    }
    cur
}

/// What follows the last place, at or before index `k`, where `p` stands; the
/// whole text where there is none.
pub open spec fn after_place(s: Seq<char>, p: Seq<char>, k: int) -> Seq<char>
    decreases k + 1,
{
    if k < 0 {
        s
    } else if occurs_at(s, p, k) {
        s.skip(k + p.len())
    } else {
        after_place(s, p, k - 1)
    }
}

/// What follows the last place where `p` stands; the whole text where there is
/// none.
pub open spec fn after_last(s: Seq<char>, p: Seq<char>) -> Seq<char> {
    after_place(s, p, s.len() - p.len())
}

/// What follows the last place where `p` stands.
pub fn behind_last<'a>(s: &'a [char], p: &str) -> (out: &'a [char])
    ensures
        out@ == after_last(s@, p@),
{
    let pc = chars_of(p);
    if pc.len() > s.len() {
        return s;
    }
    let mut k: usize = s.len() - pc.len();
    while !stands_at(s, pc.as_slice(), k)
        invariant
            pc@ == p@,
            k <= s@.len() - p@.len(),
            after_last(s@, p@) == after_place(s@, p@, k as int),
        decreases k,
    {
        if k == 0 {
            assert(after_place(s@, p@, -1) == s@);
            return s;
        }
        k = k - 1;
    }
    let rest = slice_subrange(s, k + pc.len(), s.len());
    assert(rest@ =~= s@.skip(k + p@.len()));
    rest
}

/// How many characters from index `k` on are not white space, up to the first
/// that is.
pub open spec fn word_end(s: Seq<char>, k: int) -> int
    decreases s.len() - k,
{
    if 0 <= k < s.len() && !white(s[k]) {
        word_end(s, k + 1)
    } else {
        k
    }
}

/// Where a word ends, it ends behind its start.
proof fn lemma_word_end(s: Seq<char>, k: int)
    requires
        0 <= k <= s.len(),
    ensures
        k <= word_end(s, k) <= s.len(),
    decreases s.len() - k,
{
    if k < s.len() && !white(s[k]) {
        lemma_word_end(s, k + 1);
    }
}

/// A text loses no more than its white space at the start.
proof fn lemma_trimmed_start(s: Seq<char>)
    ensures
        trimmed_start(s).len() <= s.len(),
        trimmed_start(s).len() > 0 ==> !white(trimmed_start(s)[0]),
    decreases s.len(),
{
    if s.len() > 0 && white(s[0]) {
        lemma_trimmed_start(s.skip(1));
    }
}

/// The words of a text: what stands between its white space.
pub open spec fn words_of(s: Seq<char>) -> Seq<Seq<char>>
    decreases s.len(),
    via words_of_ends
{
    let t = trimmed_start(s);
    if t.len() == 0 {
        Seq::empty()
    } else {
        let k = word_end(t, 0);
        seq![t.take(k)] + words_of(t.skip(k))
    }
}

#[via_fn]
proof fn words_of_ends(s: Seq<char>) {
    let t = trimmed_start(s);
    lemma_trimmed_start(s);
    if t.len() > 0 {
        lemma_word_end(t, 1);
        assert(word_end(t, 0) == word_end(t, 1));
    }
}

/// Cuts a text into its words.
pub fn words<'a>(s: &'a [char]) -> (out: Vec<&'a [char]>)
    ensures
        views(out@) == words_of(s@),
{
    let mut out: Vec<&'a [char]> = Vec::new();
    let mut rest: &'a [char] = trim_start(s);
    proof {
        lemma_trimmed_start(s@);
        assert(trimmed_start(rest@) == rest@);
        assert(words_of(rest@) == words_of(s@));
        assert(views(out@) + words_of(rest@) =~= words_of(s@));
    }
    while rest.len() > 0
        invariant
            trimmed_start(rest@) == rest@,
            views(out@) + words_of(rest@) == words_of(s@),
        decreases rest@.len(),
    {
        let mut k: usize = 0;
        while k < rest.len() && !is_white(rest[k])
            invariant
                k <= rest@.len(),
                word_end(rest@, 0) == word_end(rest@, k as int),
            decreases rest@.len() - k,
        {
            k = k + 1;
        }
        let head = slice_subrange(rest, 0, k);
        let tail = slice_subrange(rest, k, rest.len());
        let next = trim_start(tail);
        let ghost before = out@;
        proof {
            assert(head@ =~= rest@.take(k as int));
            assert(tail@ =~= rest@.skip(k as int));
            lemma_trimmed_start(tail@);
            lemma_trimmed_start(rest@);
            lemma_word_end(rest@, 1);
            assert(trimmed_start(next@) == next@);
            assert(words_of(next@) == words_of(tail@));
            assert(words_of(rest@) == seq![head@] + words_of(tail@));
        }
        out.push(head);
        assert(views(out@) =~= views(before).push(head@));
        assert(views(out@) + words_of(next@) =~= views(before) + words_of(rest@));
        rest = next;
    }
    assert(views(out@) + words_of(rest@) =~= views(out@));
    out
}

/// The given texts one behind the other, with `sep` between them.
pub open spec fn joined(parts: Seq<Seq<char>>, sep: Seq<char>) -> Seq<char>
    decreases parts.len(),
{
    if parts.len() == 0 {
        Seq::empty()
    } else if parts.len() == 1 {
        parts[0]
    } else {
        joined(parts.drop_last(), sep) + sep + parts.last()
    }
}

/// Joins strings, with `sep` between them.
pub fn join(parts: &Vec<String>, sep: &str) -> (out: String)
    ensures
        out@ == joined(texts(parts@), sep@),
{
    let mut out = String::new();
    let ghost all = texts(parts@);
    let mut i: usize = 0;
    assert(all.take(0) =~= Seq::<Seq<char>>::empty());
    while i < parts.len()
        invariant
            i <= parts@.len(),
            all == texts(parts@),
            out@ == joined(all.take(i as int), sep@),
        decreases parts@.len() - i,
    {
        if i > 0 {
            out.append(sep);
        }
        out.append(parts[i].as_str());
        assert(all.take(i + 1).drop_last() =~= all.take(i as int));
        assert(all.take(i + 1).last() == parts@[i as int]@);
        assert(out@ =~= joined(all.take(i + 1), sep@));
        i = i + 1;
    }
    assert(all.take(i as int) =~= all);
    out
}

// ---------------------------------------------------------------------------
// Numbers
// ---------------------------------------------------------------------------

/// The character of a decimal digit.
pub open spec fn digit_char(d: nat) -> char {
    (48 + d) as char
}

/// A natural number in decimal.
pub open spec fn decimal(n: nat) -> Seq<char>
    decreases n,
{
    if n < 10 {
        seq![digit_char(n)]
    } else {
        decimal(n / 10).push(digit_char(n % 10))
    }
}

/// An integer in decimal, with a minus sign where it is negative.
pub open spec fn decimal_int(n: int) -> Seq<char> {
    if n < 0 {
        seq!['-'] + decimal((-n) as nat)
    } else {
        decimal(n as nat)
    }
}

/// Appends a natural number in decimal.
pub fn push_decimal(out: &mut String, n: u64)
    ensures
        final(out)@ == old(out)@ + decimal(n as nat),
    decreases n,
{
    if n >= 10 {
        push_decimal(out, n / 10);
    }
    let ghost before = out@;
    let d: u8 = (n % 10) as u8;
    out.push((48 + d) as char);
    proof {
        assert(out@ == before.push(digit_char((n % 10) as nat)));
        if n >= 10 {
            assert(out@ =~= old(out)@ + decimal((n / 10) as nat).push(digit_char((n % 10) as nat)));
        } else {
            assert(out@ =~= old(out)@ + seq![digit_char(n as nat)]);
        }
    }
}

/// Appends an integer in decimal.
pub fn push_int(out: &mut String, n: i64)
    ensures
        final(out)@ == old(out)@ + decimal_int(n as int),
{
    if n < 0 {
        let ghost before = out@;
        out.push('-');
        if n == i64::MIN {
            push_decimal(out, 9_223_372_036_854_775_808);
        } else {
            push_decimal(out, (-n) as u64);
        }
        assert(out@ =~= before + (seq!['-'] + decimal((-(n as int)) as nat)));
    } else {
        push_decimal(out, n as u64);
    }
}

/// A natural number in decimal.
pub fn decimal_string(n: u64) -> (out: String)
    ensures
        out@ == decimal(n as nat),
{
    let mut out = String::new();
    push_decimal(&mut out, n);
    assert(out@ =~= decimal(n as nat));
    out
}

/// Whether a character is a decimal digit.
pub open spec fn digit(c: char) -> bool {
    '0' <= c <= '9'
}

/// The number that a run of decimal digits stands for.
pub open spec fn digits_value(s: Seq<char>) -> nat
    decreases s.len(),
{
    if s.len() == 0 {
        0
    } else {
        10 * digits_value(s.drop_last()) + (s.last() as u32 - 48) as nat
    }
}

/// The value of a text that is one or more decimal digits.
pub open spec fn natural(s: Seq<char>) -> Option<nat> {
    if s.len() > 0 && (forall|i: int| 0 <= i < s.len() ==> digit(#[trigger] s[i])) {
        Some(digits_value(s))
    } else {
        None
    }
}

/// The value of decimal digits behind an optional `+`.
pub open spec fn unsigned(s: Seq<char>) -> Option<nat> {
    if s.len() > 0 && s[0] == '+' {
        natural(s.skip(1))
    } else {
        natural(s)
    }
}

/// The value of decimal digits behind an optional sign.
pub open spec fn signed(s: Seq<char>) -> Option<int> {
    if s.len() > 0 && s[0] == '-' {
        match natural(s.skip(1)) {
            Some(n) => Some(-(n as int)),
            None => None,
        }
    } else {
        match unsigned(s) {
            Some(n) => Some(n as int),
            None => None,
        }
    }
}

/// Whether a number is one of 64 bits.
pub open spec fn in_i64(n: int) -> bool {
    i64::MIN <= n <= i64::MAX
}

/// A text read as a 64-bit signed integer.
pub open spec fn i64_of(s: Seq<char>) -> Option<i64> {
    match signed(s) {
        Some(v) => if i64::MIN <= v <= i64::MAX {
            Some(v as i64)
        } else {
            None
        },
        None => None,
    }
}

/// A text read as a 64-bit natural number.
pub open spec fn u64_of(s: Seq<char>) -> Option<u64> {
    match unsigned(s) {
        Some(v) => if v <= u64::MAX {
            Some(v as u64)
        } else {
            None
        },
        None => None,
    }
}

proof fn lemma_digits_grow(s: Seq<char>, k: int)
    requires
        0 <= k <= s.len(),
    ensures
        digits_value(s.take(k)) <= digits_value(s),
    decreases s.len(),
{
    if k < s.len() {
        lemma_digits_grow(s.drop_last(), k);
        assert(s.drop_last().take(k) =~= s.take(k));
    } else {
        assert(s.take(k) =~= s);
    }
}

/// Reads one or more decimal digits; `None` too where the value exceeds 64
/// bits.
fn parse_natural(s: &[char]) -> (out: Option<u64>)
    ensures
        match out {
            Some(v) => natural(s@) == Some(v as nat),
            None => natural(s@) is None || natural(s@).unwrap() > u64::MAX,
        },
{
    if s.len() == 0 {
        return None;
    }
    let mut v: u64 = 0;
    let mut i: usize = 0;
    assert(s@.take(0) =~= Seq::<char>::empty());
    while i < s.len()
        invariant
            i <= s@.len(),
            v == digits_value(s@.take(i as int)),
            forall|k: int| 0 <= k < i ==> digit(#[trigger] s@[k]),
        decreases s@.len() - i,
    {
        let c = s[i];
        if !('0' <= c && c <= '9') {
            assert(!digit(s@[i as int]));
            return None;
        }
        let d: u64 = (c as u32 - 48) as u64;
        proof {
            assert(s@.take(i + 1).drop_last() =~= s@.take(i as int));
            assert(s@.take(i + 1).last() == c);
            lemma_digits_grow(s@, i + 1);
        }
        if v > (u64::MAX - d) / 10 {
            assert(10 * v + d > u64::MAX) by (nonlinear_arith)
                requires
                    v > (u64::MAX - d) / 10,
                    d <= u64::MAX,
            ;
            return None;
        }
        v = v * 10 + d;
        i = i + 1;
    }
    assert(s@.take(i as int) =~= s@);
    Some(v)
}

/// Reads a 64-bit signed integer.
pub fn parse_i64(s: &[char]) -> (out: Option<i64>)
    ensures
        out == i64_of(s@),
{
    if s.len() == 0 {
        return None;
    }
    if s[0] == '-' {
        let rest = slice_subrange(s, 1, s.len());
        assert(rest@ =~= s@.skip(1));
        match parse_natural(rest) {
            Some(v) => if v <= 9_223_372_036_854_775_807 {
                Some(-(v as i64))
            } else if v == 9_223_372_036_854_775_808 {
                Some(i64::MIN)
            } else {
                None
            },
            None => None,
        }
    } else {
        match parse_u64(s) {
            Some(v) => if v <= 9_223_372_036_854_775_807 {
                Some(v as i64)
            } else {
                None
            },
            None => None,
        }
    }
}

/// Reads a 64-bit natural number.
pub fn parse_u64(s: &[char]) -> (out: Option<u64>)
    ensures
        out == u64_of(s@),
{
    if s.len() > 0 && s[0] == '+' {
        let rest = slice_subrange(s, 1, s.len());
        assert(rest@ =~= s@.skip(1));
        parse_natural(rest)
    } else {
        parse_natural(s)
    }
}

// ---------------------------------------------------------------------------
// Bytes
// ---------------------------------------------------------------------------

/// How many bytes a character takes in UTF-8.
pub open spec fn width(c: char) -> nat {
    let u = c as u32;
    if u < 0x80 {
        1
    } else if u < 0x800 {
        2
    } else if u < 0x1_0000 {
        3
    } else {
        4
    }
}

/// How many bytes a text takes in UTF-8.
pub open spec fn byte_len(s: Seq<char>) -> nat
    decreases s.len(),
{
    if s.len() == 0 {
        0
    } else {
        width(s[0]) + byte_len(s.skip(1))
    }
}

/// How many characters the first `n` bytes of a text hold, where they end between
/// two characters or at the end.
pub open spec fn chars_in(s: Seq<char>, n: nat) -> Option<nat>
    decreases s.len(),
{
    if n == 0 {
        Some(0)
    } else if s.len() == 0 || width(s[0]) > n {
        None
    } else {
        match chars_in(s.skip(1), (n - width(s[0])) as nat) {
            Some(k) => Some(k + 1),
            None => None,
        }
    }
}

/// How many bytes a character takes in UTF-8.
pub fn utf8_width(c: char) -> (n: usize)
    ensures
        n == width(c),
{
    let u: u32 = c as u32;
    if u < 0x80 {
        1
    } else if u < 0x800 {
        2
    } else if u < 0x1_0000 {
        3
    } else {
        4
    }
}

/// Whether a text takes at least `n` bytes in UTF-8.
pub fn has_bytes(s: &[char], n: usize) -> (out: bool)
    ensures
        out == (byte_len(s@) >= n),
{
    let mut left: usize = n;
    let mut i: usize = 0;
    assert(s@.skip(0) =~= s@);
    while i < s.len() && left > 0
        invariant
            i <= s@.len(),
            (byte_len(s@) >= n) == (byte_len(s@.skip(i as int)) >= left),
        decreases s@.len() - i,
    {
        let w: usize = utf8_width(s[i]);
        assert(s@.skip(i as int).skip(1) =~= s@.skip(i + 1));
        if w >= left {
            left = 0;
        } else {
            left = left - w;
        }
        i = i + 1;
    }
    left == 0
}

/// How many characters the first `n` bytes of a text hold.
pub fn count_chars_in(s: &[char], n: usize) -> (out: Option<usize>)
    ensures
        match out {
            Some(k) => chars_in(s@, n as nat) == Some(k as nat) && k <= s@.len(),
            None => chars_in(s@, n as nat) is None,
        },
{
    let mut left: usize = n;
    let mut i: usize = 0;
    assert(s@.skip(0) =~= s@);
    while i < s.len() && left > 0
        invariant
            i <= s@.len(),
            chars_in(s@, n as nat) == (match chars_in(s@.skip(i as int), left as nat) {
                Some(k) => Some(k + i as nat),
                None => None,
            }),
        decreases s@.len() - i,
    {
        let w: usize = utf8_width(s[i]);
        assert(s@.skip(i as int).skip(1) =~= s@.skip(i + 1));
        if w > left {
            return None;
        }
        left = left - w;
        i = i + 1;
    }
    if left == 0 {
        Some(i)
    } else {
        None
    }
}

// ---------------------------------------------------------------------------
// Laws
// ---------------------------------------------------------------------------

/// The first of two characters that part a text is where it is cut, and a text without
/// the character is not cut.
pub proof fn law_cut_once_at_the_first(a: Seq<char>, c: char, b: Seq<char>)
    requires
        !a.contains(c),
    ensures
        cut_once(a + seq![c] + b, c) == Some((a, b)),
        cut_once(a, c) is None,
{
    let s = a + seq![c] + b;
    let k = a.len() as int;
    assert forall|j: int| 0 <= j < k implies s[j] != c by {
        assert(a.contains(a[j]));
    }
    assert forall|j: int| 0 <= j < k implies a[j] != c by {
        assert(a.contains(a[j]));
    }
    lemma_index_of(s, c, k);
    lemma_index_of(a, c, k);
    assert(s.take(k) =~= a);
    assert(s.skip(k + 1) =~= b);
}

/// A text is cut at its first character `c`, and what is behind it in the same way, until
/// but one of the parts are there.
pub proof fn law_cut_parts(a: Seq<char>, c: char, b: Seq<char>, limit: nat)
    requires
        !a.contains(c),
    ensures
        limit > 1 ==> cut_at_most(a + seq![c] + b, c, limit) == seq![a] + cut_at_most(
            b,
            c,
            (limit - 1) as nat,
        ),
        cut_at_most(a + seq![c] + b, c, 1) == seq![a + seq![c] + b],
        cut_at_most(a, c, limit) == seq![a],
        cut_all(a + seq![c] + b, c) == seq![a] + cut_all(b, c),
        cut_all(a, c) == seq![a],
{
    law_cut_once_at_the_first(a, c, b);
    let s = a + seq![c] + b;
    let k = a.len() as int;
    assert forall|j: int| 0 <= j < k implies s[j] != c by {
        assert(a.contains(a[j]));
    }
    assert forall|j: int| 0 <= j < k implies a[j] != c by {
        assert(a.contains(a[j]));
    }
    lemma_index_of(s, c, k);
    lemma_index_of(a, c, k);
    assert(s.take(k) =~= a);
    assert(s.skip(k + 1) =~= b);
    lemma_cut_limit(b, c, s.len(), (b.len() + 1) as nat);
}

/// A line ends at a newline, or at a carriage return and a newline; the lines behind it are
/// the lines of the rest. What has no newline is one line, and nothing has none.
pub proof fn law_lines_end_at_newlines(line: Seq<char>, rest: Seq<char>)
    requires
        !line.contains('\n'),
    ensures
        line.len() == 0 || line.last() != '\r' ==> lines_of(line + seq!['\n'] + rest) == seq![line]
            + lines_of(rest),
        lines_of(line + seq!['\r', '\n'] + rest) == seq![line] + lines_of(rest),
        line.len() > 0 ==> lines_of(line) == seq![line],
        lines_of(Seq::empty()) == Seq::<Seq<char>>::empty(),
{
    let s = line + seq!['\n'] + rest;
    let k = line.len() as int;
    assert forall|j: int| 0 <= j < k implies s[j] != '\n' && line[j] != '\n' by {
        assert(line.contains(line[j]));
    }
    lemma_index_of(s, '\n', k);
    lemma_index_of(line, '\n', k);
    assert(s.take(k) =~= line);
    assert(s.skip(k + 1) =~= rest);
    let t = line + seq!['\r', '\n'] + rest;
    assert forall|j: int| 0 <= j < k + 1 implies t[j] != '\n' by {
        if j < k {
            assert(line.contains(line[j]));
        }
    }
    lemma_index_of(t, '\n', k + 1);
    assert(t.take(k + 1) =~= line.push('\r'));
    assert(t.take(k + 1).drop_last() =~= line);
    assert(t.skip(k + 2) =~= rest);
}

/// No line holds a newline.
pub proof fn law_lines_hold_no_newline(s: Seq<char>)
    ensures
        forall|i: int| 0 <= i < lines_of(s).len() ==> !(#[trigger] lines_of(s)[i]).contains('\n'),
    decreases s.len(),
{
    lemma_index_within(s, '\n');
    let k = index_of(s, '\n') as int;
    if s.len() > 0 {
        if k >= s.len() {
            assert(!s.contains('\n'));
        } else {
            law_lines_hold_no_newline(s.skip(k + 1));
            let head = without_cr(s.take(k));
            assert(!head.contains('\n'));
            let all = lines_of(s);
            assert forall|i: int| 0 <= i < all.len() implies !(#[trigger] all[i]).contains('\n') by {
                if i > 0 {
                    assert(all[i] == lines_of(s.skip(k + 1))[i - 1]);
                }
            }
        }
    }
}

/// Before the index of a character, the character does not stand.
proof fn lemma_index_within(s: Seq<char>, c: char)
    ensures
        index_of(s, c) <= s.len(),
        forall|j: int| 0 <= j < index_of(s, c) ==> s[j] != c,
        index_of(s, c) < s.len() ==> s[index_of(s, c) as int] == c,
    decreases s.len(),
{
    if s.len() > 0 && s[0] != c {
        let rest = s.skip(1);
        lemma_index_within(rest, c);
        assert forall|j: int| 0 <= j < index_of(s, c) implies s[j] != c by {
            if j > 0 {
                assert(rest[j - 1] == s[j]);
            }
        }
    }
}

/// Blanks, tabs and line ends are white; the other characters of ASCII that can be seen are
/// not.
pub proof fn law_white_of_ascii(c: char)
    ensures
        c == ' ' || c == '\t' || c == '\n' || c == '\r' ==> white(c),
        0x21 <= c as u32 <= 0x7E ==> !white(c),
{
}

/// A text with white space around something that is not white at either end is that
/// something, once it is trimmed; white space alone is nothing.
pub proof fn law_trimmed_is_the_inside(left: Seq<char>, inner: Seq<char>, right: Seq<char>)
    requires
        forall|i: int| 0 <= i < left.len() ==> white(#[trigger] left[i]),
        forall|i: int| 0 <= i < right.len() ==> white(#[trigger] right[i]),
        inner.len() > 0 ==> !white(inner[0]) && !white(inner.last()),
    ensures
        trimmed(left + inner + right) == inner,
    decreases left.len() + right.len(),
{
    if left.len() > 0 {
        let s = left + inner + right;
        assert(s[0] == left[0]);
        let rest = left.skip(1);
        assert(s.skip(1) =~= rest + inner + right);
        assert forall|i: int| 0 <= i < rest.len() implies white(#[trigger] rest[i]) by {
            assert(rest[i] == left[i + 1]);
        }
        law_trimmed_is_the_inside(rest, inner, right);
    } else if inner.len() > 0 {
        let s = left + inner + right;
        assert(s[0] == inner[0]);
        assert(s =~= inner + right);
        lemma_trimmed_end(inner, right);
    } else {
        let s = left + inner + right;
        assert(s =~= right);
        lemma_all_white(right);
    }
}

proof fn lemma_trimmed_end(inner: Seq<char>, right: Seq<char>)
    requires
        inner.len() > 0,
        !white(inner.last()),
        forall|i: int| 0 <= i < right.len() ==> white(#[trigger] right[i]),
    ensures
        trimmed_end(inner + right) == inner,
    decreases right.len(),
{
    if right.len() > 0 {
        let s = inner + right;
        assert(s.last() == right.last());
        assert(white(right[right.len() - 1]));
        assert(s.drop_last() =~= inner + right.drop_last());
        let rest = right.drop_last();
        assert forall|i: int| 0 <= i < rest.len() implies white(#[trigger] rest[i]) by {
            assert(rest[i] == right[i]);
        }
        lemma_trimmed_end(inner, rest);
    } else {
        assert(inner + right =~= inner);
    }
}

proof fn lemma_all_white(s: Seq<char>)
    requires
        forall|i: int| 0 <= i < s.len() ==> white(#[trigger] s[i]),
    ensures
        trimmed(s) == Seq::<char>::empty(),
    decreases s.len(),
{
    if s.len() > 0 {
        let rest = s.skip(1);
        assert forall|i: int| 0 <= i < rest.len() implies white(#[trigger] rest[i]) by {
            assert(rest[i] == s[i + 1]);
        }
        lemma_all_white(rest);
    } else {
        assert(trimmed(s) =~= Seq::empty());
    }
}

/// Every text is white space around something that is not white at either end.
pub proof fn law_every_text_has_an_inside(s: Seq<char>)
    ensures
        exists|a: int, b: int|
            0 <= a <= b <= s.len() && trimmed(s) == #[trigger] s.subrange(a, b) && (a < b ==> !white(
                s[a],
            ) && !white(s[b - 1])) && (forall|i: int|
                0 <= i < a || b <= i < s.len() ==> white(#[trigger] s[i])),
    decreases s.len(),
{
    if s.len() == 0 {
        assert(trimmed(s) =~= s.subrange(0, 0));
    } else if white(s[0]) {
        let rest = s.skip(1);
        law_every_text_has_an_inside(rest);
        let (a, b) = choose|a: int, b: int|
            0 <= a <= b <= rest.len() && trimmed(rest) == #[trigger] rest.subrange(a, b) && (a < b
                ==> !white(rest[a]) && !white(rest[b - 1])) && (forall|i: int|
                0 <= i < a || b <= i < rest.len() ==> white(#[trigger] rest[i]));
        assert(rest.subrange(a, b) =~= s.subrange(a + 1, b + 1));
        assert forall|i: int| 0 <= i < a + 1 || b + 1 <= i < s.len() implies white(
            #[trigger] s[i],
        ) by {
            if i > 0 {
                assert(s[i] == rest[i - 1]);
            }
        }
    } else {
        lemma_end_inside(s);
        let b = choose|b: int|
            0 <= b <= s.len() && trimmed_end(s) == #[trigger] s.take(b) && (b > 0 ==> !white(
                s[b - 1],
            )) && (forall|i: int| b <= i < s.len() ==> white(#[trigger] s[i]));
        assert(s.take(b) =~= s.subrange(0, b));
    }
}

proof fn lemma_end_inside(s: Seq<char>)
    ensures
        exists|b: int|
            0 <= b <= s.len() && trimmed_end(s) == #[trigger] s.take(b) && (b > 0 ==> !white(
                s[b - 1],
            )) && (forall|i: int| b <= i < s.len() ==> white(#[trigger] s[i])),
    decreases s.len(),
{
    if s.len() > 0 && white(s.last()) {
        let rest = s.drop_last();
        lemma_end_inside(rest);
        let b = choose|b: int|
            0 <= b <= rest.len() && trimmed_end(rest) == #[trigger] rest.take(b) && (b > 0 ==> !white(
                rest[b - 1],
            )) && (forall|i: int| b <= i < rest.len() ==> white(#[trigger] rest[i]));
        assert(rest.take(b) =~= s.take(b));
        assert forall|i: int| b <= i < s.len() implies white(#[trigger] s[i]) by {
            if i < rest.len() {
                assert(s[i] == rest[i]);
            }
        }
    } else {
        assert(s.take(s.len() as int) =~= s);
    }
}

/// A text has a prefix, or a suffix, exactly where it is that and something else; what is
/// behind the prefix is the something else.
pub proof fn law_ends_of_texts(p: Seq<char>, rest: Seq<char>)
    ensures
        after_prefix(p + rest, p) == Some(rest),
        has_prefix(p + rest, p),
        has_suffix(rest + p, p),
        forall|s: Seq<char>| #[trigger] has_prefix(s, p) ==> s == p + s.skip(p.len() as int),
        forall|s: Seq<char>| #[trigger]
            has_suffix(s, p) ==> s == s.take(s.len() - p.len()) + p,
{
    assert((p + rest).take(p.len() as int) =~= p);
    assert((p + rest).skip(p.len() as int) =~= rest);
    assert((rest + p).skip(rest.len() as int) =~= p);
    assert forall|s: Seq<char>| #[trigger] has_prefix(s, p) implies s == p + s.skip(
        p.len() as int,
    ) by {
        assert(s =~= s.take(p.len() as int) + s.skip(p.len() as int));
    }
    assert forall|s: Seq<char>| #[trigger] has_suffix(s, p) implies s == s.take(s.len() - p.len())
        + p by {
        assert(s =~= s.take(s.len() - p.len()) + s.skip(s.len() - p.len()));
    }
}

/// What is behind the last occurrence of a pattern is what is behind any occurrence after
/// which the pattern does not occur again; without an occurrence it is the whole text.
pub proof fn law_after_the_last(a: Seq<char>, p: Seq<char>, b: Seq<char>)
    requires
        p.len() > 0,
        forall|k: int| k > a.len() ==> !#[trigger] occurs_at(a + p + b, p, k),
    ensures
        after_last(a + p + b, p) == b,
{
    let s = a + p + b;
    let k = a.len() as int;
    assert(s.subrange(k, k + p.len()) =~= p);
    lemma_after_place(s, p, k, s.len() - p.len());
    assert(s.skip(k + p.len()) =~= b);
}

/// A text in which a pattern does not occur has all of it behind the last occurrence.
pub proof fn law_without_an_occurrence(s: Seq<char>, p: Seq<char>)
    requires
        forall|k: int| !#[trigger] occurs_at(s, p, k),
    ensures
        after_last(s, p) == s,
{
    lemma_no_place(s, p, s.len() - p.len());
}

proof fn lemma_no_place(s: Seq<char>, p: Seq<char>, k: int)
    requires
        forall|j: int| !#[trigger] occurs_at(s, p, j),
    ensures
        after_place(s, p, k) == s,
    decreases k + 1,
{
    if k >= 0 {
        lemma_no_place(s, p, k - 1);
    }
}

proof fn lemma_after_place(s: Seq<char>, p: Seq<char>, at: int, k: int)
    requires
        0 <= at <= k,
        occurs_at(s, p, at),
        forall|j: int| j > at ==> !#[trigger] occurs_at(s, p, j),
    ensures
        after_place(s, p, k) == s.skip(at + p.len()),
    decreases k,
{
    if k > at {
        lemma_after_place(s, p, at, k - 1);
    }
}

/// A word ends at white space, and the words behind it are the words of the rest; white
/// space before a word does not count.
pub proof fn law_words_end_at_white_space(word: Seq<char>, c: char, rest: Seq<char>)
    requires
        word.len() > 0,
        forall|i: int| 0 <= i < word.len() ==> !white(#[trigger] word[i]),
        white(c),
    ensures
        words_of(word + seq![c] + rest) == seq![word] + words_of(rest),
        words_of(word) == seq![word],
        words_of(seq![c] + rest) == words_of(rest),
        words_of(Seq::empty()) == Seq::<Seq<char>>::empty(),
{
    let s = word + seq![c] + rest;
    lemma_word_ends_at(s, 0, word.len() as int);
    assert(s.take(word.len() as int) =~= word);
    let tail = s.skip(word.len() as int);
    assert(tail =~= seq![c] + rest);
    assert(s[0] == word[0]);
    assert(trimmed_start(s) == s);
    lemma_word_ends_at(word, 0, word.len() as int);
    assert(word.take(word.len() as int) =~= word);
    assert(word.skip(word.len() as int) =~= Seq::empty());
    assert(trimmed_start(Seq::<char>::empty()) =~= Seq::empty());
    assert(words_of(Seq::empty()) =~= Seq::<Seq<char>>::empty());
    assert(words_of(word) =~= seq![word]);
    assert((seq![c] + rest).skip(1) =~= rest);
    assert(trimmed_start(seq![c] + rest) == trimmed_start(rest));
    assert(words_of(seq![c] + rest) == words_of(rest));
    assert(words_of(s) == seq![s.take(word.len() as int)] + words_of(tail));
}

proof fn lemma_word_ends_at(s: Seq<char>, k: int, e: int)
    requires
        0 <= k <= e <= s.len(),
        forall|i: int| k <= i < e ==> !white(#[trigger] s[i]),
        e < s.len() ==> white(s[e]),
    ensures
        word_end(s, k) == e,
    decreases e - k,
{
    if k < e {
        lemma_word_ends_at(s, k + 1, e);
    }
}

/// An integer of 64 bits is read back from its decimal form.
pub proof fn law_integers_are_read_back(n: i64)
    ensures
        i64_of(decimal_int(n as int)) == Some(n),
{
    let m: nat = if n < 0 {
        (-n) as nat
    } else {
        n as nat
    };
    law_naturals_are_read_back(m);
    let d = decimal(m);
    if n < 0 {
        assert((seq!['-'] + d).skip(1) =~= d);
    } else {
        assert(digit(d[0]));
    }
}

/// A natural number is read back from its decimal form, which is made of digits.
pub proof fn law_naturals_are_read_back(n: nat)
    ensures
        natural(decimal(n)) == Some(n),
        decimal(n).len() > 0,
        forall|i: int| 0 <= i < decimal(n).len() ==> digit(#[trigger] decimal(n)[i]),
        n <= u64::MAX ==> u64_of(decimal(n)) == Some(n as u64),
    decreases n,
{
    if n >= 10 {
        law_naturals_are_read_back(n / 10);
        let front = decimal(n / 10);
        assert(decimal(n).drop_last() =~= front);
        assert forall|i: int| 0 <= i < decimal(n).len() implies digit(#[trigger] decimal(n)[i]) by {
            if i < front.len() {
                assert(decimal(n)[i] == front[i]);
            }
        }
    } else {
        assert(decimal(n).drop_last() =~= Seq::empty());
        assert(digits_value(Seq::empty()) == 0);
    }
    assert(digits_value(decimal(n)) == n);
    assert(digit(decimal(n)[0]));
}

/// A text has the bytes of its parts, and the bytes of its first part are those that come
/// first; an ASCII character is one byte, and any other is two to four.
pub proof fn law_bytes_are_those_of_the_parts(a: Seq<char>, b: Seq<char>, c: char)
    ensures
        byte_len(a + b) == byte_len(a) + byte_len(b),
        chars_in(a + b, byte_len(a)) == Some(a.len()),
        c as int <= 0x7f ==> byte_len(seq![c]) == 1,
        0x7f < c as int <= 0x7ff ==> byte_len(seq![c]) == 2,
        0x7ff < c as int <= 0xffff ==> byte_len(seq![c]) == 3,
        0xffff < c as int ==> byte_len(seq![c]) == 4,
    decreases a.len(),
{
    assert(seq![c].skip(1) =~= Seq::empty());
    assert(byte_len(seq![c].skip(1)) == 0);
    assert(byte_len(seq![c]) == width(c));
    if a.len() == 0 {
        assert(a + b =~= b);
    } else {
        law_bytes_are_those_of_the_parts(a.skip(1), b, c);
        assert((a + b).skip(1) =~= a.skip(1) + b);
    }
}

/// A text of ASCII characters has as many bytes as characters.
pub proof fn law_ascii_is_a_byte_each(s: Seq<char>)
    requires
        forall|i: int| 0 <= i < s.len() ==> (#[trigger] s[i]) as int <= 0x7f,
    ensures
        byte_len(s) == s.len(),
    decreases s.len(),
{
    if s.len() > 0 {
        law_ascii_is_a_byte_each(s.skip(1));
        law_bytes_are_those_of_the_parts(seq![s[0]], s.skip(1), s[0]);
        assert(seq![s[0]] + s.skip(1) =~= s);
    }
}

/// Texts are joined in their order, with the separator between any two of them, and none
/// before the first or behind the last.
pub proof fn law_joined_texts(parts: Seq<Seq<char>>, part: Seq<char>, sep: Seq<char>)
    ensures
        joined(Seq::empty(), sep).len() == 0,
        parts.len() == 0 ==> joined(parts.push(part), sep) == part,
        parts.len() > 0 ==> joined(parts.push(part), sep) == joined(parts, sep) + sep + part,
{
    assert(parts.push(part).drop_last() =~= parts);
}

} // verus!
