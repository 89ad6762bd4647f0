//! Bare-word mentions of repository names in the text of a session.

use crate::seqs::{gather, group_list_steps};
use crate::text::{chars_of, occurs_at, stands_at};
use vstd::prelude::*;

verus! {

broadcast use group_list_steps;

/// A character with `A` to `Z` folded to lower case.
pub open spec fn folded(c: char) -> char {
    if 'A' <= c <= 'Z' {
        (c as u32 + 32) as char
    } else {
        c
    }
}

/// A text with `A` to `Z` folded to lower case.
pub open spec fn folded_text(s: Seq<char>) -> Seq<char> {
    s.map_values(|c: char| folded(c))
}

/// Whether a character is an ASCII letter or digit.
pub open spec fn alphanumeric(c: char) -> bool {
    'a' <= c <= 'z' || 'A' <= c <= 'Z' || '0' <= c <= '9'
}

/// Whether `needle` stands in `hay` at index `k` as a word of its own: with
/// nothing alphanumeric right before or right behind it.
pub open spec fn word_at(hay: Seq<char>, needle: Seq<char>, k: int) -> bool {
    &&& occurs_at(hay, needle, k)
    &&& k > 0 ==> !alphanumeric(hay[k - 1])
    &&& k + needle.len() < hay.len() ==> !alphanumeric(hay[k + needle.len()])
}

/// Whether `needle` is a word somewhere in `hay`.
pub open spec fn has_word(hay: Seq<char>, needle: Seq<char>) -> bool {
    exists|k: int| word_at(hay, needle, k)
}

/// Whether a text mentions a name. Names of fewer than three characters are noise
/// and match nothing.
pub open spec fn mentioned(content: Seq<char>, name: Seq<char>) -> bool {
    name.len() >= 3 && has_word(folded_text(content), folded_text(name))
}

/// The identifier of a name that the text mentions.
pub open spec fn mention(content: Seq<char>, needle: (i64, Seq<char>)) -> Option<i64> {
    if mentioned(content, needle.1) {
        Some(needle.0)
    } else {
        None
    }
}

/// The identifiers and names that a list holds.
pub open spec fn needle_views(needles: Seq<(i64, String)>) -> Seq<(i64, Seq<char>)> {
    needles.map_values(|n: (i64, String)| (n.0, n.1@))
}

fn fold(c: char) -> (out: char)
    ensures
        out == folded(c),
{
    if 'A' <= c && c <= 'Z' {
        (c as u8 + 32) as char
    } else {
        c
    }
}

fn is_alphanumeric(c: char) -> (b: bool)
    ensures
        b == alphanumeric(c),
{
    ('a' <= c && c <= 'z') || ('A' <= c && c <= 'Z') || ('0' <= c && c <= '9')
}

/// The characters of a text with `A` to `Z` folded to lower case.
pub fn folded_chars(s: &str) -> (out: Vec<char>)
    ensures
        out@ == folded_text(s@),
{
    let chars = chars_of(s);
    let mut out: Vec<char> = Vec::new();
    let mut i: usize = 0;
    while i < chars.len()
        invariant
            chars@ == s@,
            i <= chars@.len(),
            out@ == folded_text(s@).take(i as int),
        decreases chars@.len() - i,
    {
        out.push(fold(chars[i]));
        assert(folded_text(s@).take(i + 1) =~= folded_text(s@).take(i as int).push(
            folded(s@[i as int]),
        ));
        i = i + 1;
    }
    assert(folded_text(s@).take(i as int) =~= folded_text(s@));
    out
}

/// Whether `needle` is a word somewhere in `hay`. Both are taken as they are,
/// upper and lower case apart.
pub fn has_word_match(hay: &[char], needle: &[char]) -> (found: bool)
    requires
        needle@.len() > 0,
    ensures
        found == has_word(hay@, needle@),
{
    let mut k: usize = 0;
    while k < hay.len() && needle.len() <= hay.len() - k
        invariant
            needle@.len() > 0,
            k <= hay@.len(),
            forall|j: int| 0 <= j < k ==> !word_at(hay@, needle@, j),
        decreases hay@.len() - k,
    {
        if hay[k] == needle[0] && stands_at(hay, needle, k) {
            let before_ok = k == 0 || !is_alphanumeric(hay[k - 1]);
            let after: usize = k + needle.len();
            let after_ok = after >= hay.len() || !is_alphanumeric(hay[after]);
            if before_ok && after_ok {
                assert(word_at(hay@, needle@, k as int));
                return true;
            }
        } else {
            proof {
                if occurs_at(hay@, needle@, k as int) {
                    assert(hay@.subrange(k as int, k + needle@.len())[0] == hay@[k as int]);
                }
            }
        }
        k = k + 1;
    }
    assert forall|j: int| !word_at(hay@, needle@, j) by {}
    false
}

/// The identifiers of the names that a text mentions, upper and lower case of
/// ASCII letters alike, in the order of the names.
pub fn mentions_in_text(content: &str, needles: &Vec<(i64, String)>) -> (hits: Vec<i64>)
    ensures
        hits@ == gather(
            needle_views(needles@),
            |n: (i64, Seq<char>)| mention(content@, n),
        ),
{
    let hay = folded_chars(content);
    let mut hits: Vec<i64> = Vec::new();
    let ghost all = needle_views(needles@);
    let ghost f = |n: (i64, Seq<char>)| mention(content@, n);
    let mut i: usize = 0;
    assert(all.take(0) =~= Seq::<(i64, Seq<char>)>::empty());
    while i < needles.len()
        invariant
            i <= needles@.len(),
            all == needle_views(needles@),
            f == (|n: (i64, Seq<char>)| mention(content@, n)),
            hay@ == folded_text(content@),
            hits@ == gather(all.take(i as int), f),
        decreases needles@.len() - i,
    {
        let name = &needles[i].1;
        assert(all.take(i + 1) =~= all.take(i as int).push((needles@[i as int].0, name@)));
        let needle = folded_chars(name.as_str());
        if needle.len() >= 3 && has_word_match(hay.as_slice(), needle.as_slice()) {
            hits.push(needles[i].0);
        }
        i = i + 1;
    }
    assert(all.take(i as int) =~= all);
    hits
}

/// Upper and lower case of ASCII letters, in the text or in the name, make no difference
/// to whether a text mentions a name.
pub proof fn law_mentions_ignore_case(a: Seq<char>, b: Seq<char>, name: Seq<char>, same: Seq<char>)
    requires
        folded_text(a) == folded_text(b),
        folded_text(name) == folded_text(same),
    ensures
        mentioned(a, name) == mentioned(b, same),
{
    assert(folded_text(name).len() == name.len());
    assert(folded_text(same).len() == same.len());
}

/// A name of three characters or more is mentioned by itself, and wherever nothing
/// alphanumeric stands right before or right behind it.
pub proof fn law_bare_names_are_mentioned(before: Seq<char>, name: Seq<char>, behind: Seq<char>)
    requires
        name.len() >= 3,
        before.len() > 0 ==> !alphanumeric(before.last()),
        behind.len() > 0 ==> !alphanumeric(behind[0]),
    ensures
        mentioned(before + name + behind, name),
{
    let hay = folded_text(before + name + behind);
    let needle = folded_text(name);
    let k = before.len() as int;
    assert(hay.subrange(k, k + needle.len()) =~= needle);
    if k > 0 {
        assert(hay[k - 1] == folded(before.last()));
    }
    if k + needle.len() < hay.len() {
        assert(hay[k + needle.len()] == folded(behind[0]));
    }
    assert(word_at(hay, needle, k));
}

// ---------------------------------------------------------------------------
// Laws
// ---------------------------------------------------------------------------

/// Whether two characters are the same letter of ASCII but for its case, or the same
/// character.
pub open spec fn same_letter(a: char, b: char) -> bool {
    ||| a == b
    ||| 'A' <= a <= 'Z' && b as int == a as int + 32
    ||| 'A' <= b <= 'Z' && a as int == b as int + 32
}

/// Whether a name stands at index `k` of a text, letter for letter but for the case of ASCII,
/// with nothing alphanumeric right before or right behind it.
pub open spec fn stands_alone(content: Seq<char>, name: Seq<char>, k: int) -> bool {
    &&& 0 <= k <= content.len() - name.len()
    &&& forall|i: int| 0 <= i < name.len() ==> same_letter(#[trigger] content[k + i], name[i])
    &&& k > 0 ==> !is_word_char(content[k - 1])
    &&& k + name.len() < content.len() ==> !is_word_char(content[(k + name.len()) as int])
}

/// Only a name that stands in a text, letter for letter but for the case of ASCII, with
/// nothing alphanumeric right before or right behind it, is mentioned; and only one of three
/// characters or more.
pub proof fn law_only_bare_names_are_mentioned(content: Seq<char>, name: Seq<char>)
    requires
        mentioned(content, name),
    ensures
        name.len() >= 3,
        exists|k: int| stands_alone(content, name, k),
{
    let (hay, needle) = (folded_text(content), folded_text(name));
    let k = choose|k: int| word_at(hay, needle, k);
    let part = hay.subrange(k, k + needle.len());
    assert forall|i: int| 0 <= i < name.len() implies same_letter(
        #[trigger] content[k + i],
        name[i],
    ) by {
        assert(part[i] == needle[i]);
        assert(hay[k + i] == folded(content[k + i]));
        lemma_folded(content[k + i]);
        lemma_folded(name[i]);
    }
    if k > 0 {
        assert(hay[k - 1] == folded(content[k - 1]));
        lemma_folded(content[k - 1]);
    }
    if k + name.len() < content.len() {
        assert(hay[k + name.len()] == folded(content[k + name.len()]));
        lemma_folded(content[k + name.len()]);
    }
    assert(stands_alone(content, name, k));
}

/// Whether a character is a letter or a digit of ASCII.
pub open spec fn is_word_char(c: char) -> bool {
    'a' <= c <= 'z' || 'A' <= c <= 'Z' || '0' <= c <= '9'
}

proof fn lemma_folded(c: char)
    ensures
        'A' <= c <= 'Z' ==> folded(c) as int == c as int + 32,
        !('A' <= c <= 'Z') ==> folded(c) == c,
        alphanumeric(folded(c)) <==> is_word_char(c),
{
}

/// The names that a text mentions are those of the list that it does mention, in the order of
/// the list.
pub proof fn law_mentions_are_those_listed(
    content: Seq<char>,
    needles: Seq<(i64, Seq<char>)>,
    needle: (i64, Seq<char>),
)
    ensures
        ({
            let f = |n: (i64, Seq<char>)| mention(content, n);
            &&& mentioned(content, needle.1) ==> gather(needles.push(needle), f) == gather(
                needles,
                f,
            ).push(needle.0)
            &&& !mentioned(content, needle.1) ==> gather(needles.push(needle), f) == gather(
                needles,
                f,
            )
        }),
{
}

} // verus!
