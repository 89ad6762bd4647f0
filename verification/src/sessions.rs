//! Session files: one JSON record per line, folded into one summary of the
//! session.

use crate::clock::{millis, read_rfc3339, rfc3339_instant};
use crate::json::{
    int_in, lemma_container_views, member, member_of, opt_tree, text_in, trees, Json, JsonTree,
};
use crate::seqs::{
    count_of, first_some, gather, greatest, group_list_steps, law_counting_is_filtering,
    law_the_first_value_counts, law_two_are_gathered, law_what_is_gathered, least,
    lemma_greatest_is_greatest, lemma_least_is_least, sum_of,
};
use crate::text::{
    chars_of, copy_opt, in_i64, opt_is, opt_text, str_eq, string_of, trim, trimmed,
};
use vstd::prelude::*;
use vstd::slice::slice_subrange;

verus! {

broadcast use group_list_steps;

/// What is known of one session.
#[derive(Debug, Clone)]
pub struct SessionRecord {
    pub session_uuid: String,
    pub cwd: Option<String>,
    pub started_at: Option<i64>,
    pub ended_at: Option<i64>,
    pub message_count: i64,
    pub summary: Option<String>,
    pub source_file: String,
    /// Wall-clock span in milliseconds. `None` when at most one timestamp was
    /// seen.
    pub duration_ms: Option<i64>,
    pub input_tokens: i64,
    pub output_tokens: i64,
    pub cache_read_tokens: i64,
    pub cache_creation_tokens: i64,
}

/// The message of a line.
pub struct RawMessage {
    pub content: Option<Json>,
    pub usage: Option<Json>,
}

/// One line of a session file.
pub struct RawLine {
    pub kind: Option<String>,
    pub session_id: Option<String>,
    pub timestamp: Option<String>,
    pub cwd: Option<String>,
    pub content: Option<Json>,
    pub message: Option<RawMessage>,
}

/// What a line says.
#[verifier::ext_equal]
pub struct LineView {
    pub kind: Option<Seq<char>>,
    pub session_id: Option<Seq<char>>,
    pub timestamp: Option<Seq<char>>,
    pub cwd: Option<Seq<char>>,
    pub content: Option<JsonTree>,
    /// The content of the message, where the line has one.
    pub message_content: Option<JsonTree>,
    /// The token counts of the message, where the line has them.
    pub usage: Option<JsonTree>,
}

impl View for RawLine {
    type V = LineView;

    open spec fn view(&self) -> LineView {
        LineView {
            kind: opt_text(self.kind),
            session_id: opt_text(self.session_id),
            timestamp: opt_text(self.timestamp),
            cwd: opt_text(self.cwd),
            content: opt_json(self.content),
            message_content: match self.message {
                Some(m) => opt_json(m.content),
                None => None,
            },
            usage: match self.message {
                Some(m) => opt_json(m.usage),
                None => None,
            },
        }
    }
}

/// The document that an optional field holds.
pub open spec fn opt_json(j: Option<Json>) -> Option<JsonTree> {
    match j {
        Some(j) => Some(j@),
        None => None,
    }
}

// ---------------------------------------------------------------------------
// Text of a message
// ---------------------------------------------------------------------------

/// The type of a block of content: empty where it names none.
pub open spec fn block_type(block: JsonTree) -> Seq<char> {
    match text_in(member(block, "type"@)) {
        Some(t) => t,
        None => Seq::empty(),
    }
}

/// The text of a block of type `text`.
pub open spec fn block_text(block: JsonTree) -> Option<Seq<char>> {
    if block_type(block) == "text"@ {
        text_in(member(block, "text"@))
    } else {
        None
    }
}

/// The first text of a message's content, which is a plain string or an array
/// of typed blocks.
pub open spec fn first_text(content: Option<JsonTree>) -> Option<Seq<char>> {
    match content {
        Some(JsonTree::Text(s)) => Some(s),
        Some(JsonTree::Array(blocks)) => first_some(
            blocks.map_values(|b: JsonTree| block_text(b)),
        ),
        _ => None,
    }
}

/// The type of a block, or the empty text.
pub fn type_of_block(block: &Json) -> (out: String)
    ensures
        out@ == block_type(block@),
{
    match block.text_at("type") {
        Some(t) => t.clone(),
        None => String::new(),
    }
}

/// The text of a block of type `text`.
pub fn text_of_block(block: &Json) -> (out: Option<String>)
    ensures
        opt_text(out) == block_text(block@),
{
    if str_eq(type_of_block(block).as_str(), "text") {
        match block.text_at("text") {
            Some(t) => Some(t.clone()),
            None => None,
        }
    } else {
        None
    }
}

/// The first text fragment of a message's content.
pub fn extract_text(content: Option<&Json>) -> (out: Option<String>)
    ensures
        opt_text(out) == first_text(opt_tree(content)),
{
    match content {
        Some(j) => {
            proof {
                lemma_container_views(*j);
            }
            match j {
                Json::Text(s) => Some(s.clone()),
                Json::Array(blocks) => {
                    let ghost found = trees(blocks@).map_values(|b: JsonTree| block_text(b));
                    let mut i: usize = 0;
                    assert(found.take(0) =~= Seq::<Option<Seq<char>>>::empty());
                    while i < blocks.len()
                        invariant
                            i <= blocks@.len(),
                            found == trees(blocks@).map_values(|b: JsonTree| block_text(b)),
                            first_some(found.take(i as int)) is None,
                            first_text(opt_tree(content)) == first_some(found),
                        decreases blocks@.len() - i,
                    {
                        let t = text_of_block(&blocks[i]);
                        assert(found[i as int] == opt_text(t));
                        assert(found.take(i + 1) =~= found.take(i as int).push(found[i as int]));
                        if t.is_some() {
                            proof {
                                lemma_first_some_prefix(found, i + 1);
                            }
                            return t;
                        }
                        i = i + 1;
                    }
                    assert(found.take(i as int) =~= found);
                    None
                },
                _ => None,
            }
        },
        None => None,
    }
}

/// Once a value has been found, what follows does not matter.
proof fn lemma_first_some_prefix<T>(s: Seq<Option<T>>, k: int)
    requires
        0 <= k <= s.len(),
        first_some(s.take(k)) is Some,
    ensures
        first_some(s) == first_some(s.take(k)),
    decreases s.len() - k,
{
    if k < s.len() {
        assert(s.take(k + 1) =~= s.take(k).push(s[k]));
        lemma_first_some_prefix(s, k + 1);
    } else {
        assert(s.take(k) =~= s);
    }
}

/// A text cut to `max` characters, with an ellipsis where something was cut.
pub open spec fn shortened(s: Seq<char>, max: nat) -> Seq<char> {
    if s.len() <= max {
        s
    } else {
        s.take(max as int).push('…')
    }
}

/// Cuts a text to `max` characters, with an ellipsis where something was cut.
pub fn truncate(s: &str, max: usize) -> (out: String)
    ensures
        out@ == shortened(s@, max as nat),
{
    let chars = chars_of(s);
    if chars.len() <= max {
        return s.to_owned();
    }
    let head = slice_subrange(chars.as_slice(), 0, max);
    assert(head@ =~= s@.take(max as int));
    let mut out = string_of(head);
    out.push('…');
    out
}

/// A text without white space around it, cut to 200 characters; `None` where
/// nothing is left of it.
pub open spec fn summary_of(text: Option<Seq<char>>) -> Option<Seq<char>> {
    match text {
        Some(t) => if trimmed(t).len() > 0 {
            Some(shortened(trimmed(t), 200))
        } else {
            None
        },
        None => None,
    }
}

fn summarise(text: Option<String>) -> (out: Option<String>)
    ensures
        opt_text(out) == summary_of(opt_text(text)),
{
    match text {
        Some(t) => {
            let chars = chars_of(t.as_str());
            let inner = trim(chars.as_slice());
            if inner.len() > 0 {
                let inner_text = string_of(inner);
                Some(truncate(inner_text.as_str(), 200))
            } else {
                None
            }
        },
        None => None,
    }
}

// ---------------------------------------------------------------------------
// What a file says
// ---------------------------------------------------------------------------

/// Whether a line is a message of the user or of the assistant.
pub open spec fn is_message(l: LineView) -> bool {
    l.kind == Some("user"@) || l.kind == Some("assistant"@)
}

/// A working directory that is worth keeping.
pub open spec fn line_cwd(l: LineView) -> Option<Seq<char>> {
    match l.cwd {
        Some(c) => if c.len() > 0 {
            Some(c)
        } else {
            None
        },
        None => None,
    }
}

/// The instant of a line, where it has a readable timestamp.
pub open spec fn line_instant(l: LineView) -> Option<(i64, u32)> {
    match l.timestamp {
        Some(t) => rfc3339_instant(t),
        None => None,
    }
}

/// The second of a line.
pub open spec fn line_secs(l: LineView) -> Option<int> {
    match line_instant(l) {
        Some(t) => Some(t.0 as int),
        None => None,
    }
}

/// The millisecond of a line.
pub open spec fn line_millis(l: LineView) -> Option<int> {
    match line_instant(l) {
        Some(t) => Some(millis(t)),
        None => None,
    }
}

/// What the user wrote in a line.
pub open spec fn user_summary(l: LineView) -> Option<Seq<char>> {
    if l.kind == Some("user"@) {
        summary_of(
            match first_text(l.message_content) {
                Some(t) => Some(t),
                None => first_text(l.content),
            },
        )
    } else {
        None
    }
}

/// The prompt that a queue record carries.
pub open spec fn queued_summary(l: LineView) -> Option<Seq<char>> {
    if l.kind == Some("queue-operation"@) {
        summary_of(first_text(l.content))
    } else {
        None
    }
}

/// A token count of a line: zero where it has none.
pub open spec fn line_tokens(l: LineView, key: Seq<char>) -> int {
    match int_in(member_of(l.usage, key)) {
        Some(n) => n as int,
        None => 0,
    }
}

/// The seconds at which the lines were written, where they say so.
pub open spec fn all_secs(lines: Seq<LineView>) -> Seq<int> {
    gather(lines, |l: LineView| line_secs(l))
}

/// The milliseconds at which the lines were written, where they say so.
pub open spec fn all_millis(lines: Seq<LineView>) -> Seq<int> {
    gather(lines, |l: LineView| line_millis(l))
}

/// The identifier that the lines give: the first one there is.
pub open spec fn session_id_of(lines: Seq<LineView>) -> Option<Seq<char>> {
    first_some(lines.map_values(|l: LineView| l.session_id))
}

/// The working directory that the lines give: the first one there is.
pub open spec fn cwd_of(lines: Seq<LineView>) -> Option<Seq<char>> {
    first_some(lines.map_values(|l: LineView| line_cwd(l)))
}

/// The first message of the user.
pub open spec fn first_user_summary(lines: Seq<LineView>) -> Option<Seq<char>> {
    first_some(lines.map_values(|l: LineView| user_summary(l)))
}

/// The first queued prompt.
pub open spec fn first_queued_summary(lines: Seq<LineView>) -> Option<Seq<char>> {
    first_some(lines.map_values(|l: LineView| queued_summary(l)))
}

/// The first message of the user, or else the first queued prompt.
pub open spec fn session_summary(lines: Seq<LineView>) -> Option<Seq<char>> {
    match first_user_summary(lines) {
        Some(s) => Some(s),
        None => first_queued_summary(lines),
    }
}

/// The number of messages.
pub open spec fn messages_in(lines: Seq<LineView>) -> nat {
    count_of(lines, |l: LineView| is_message(l))
}

/// A token count summed over the lines.
pub open spec fn tokens_in(lines: Seq<LineView>, key: Seq<char>) -> int {
    sum_of(lines, |l: LineView| line_tokens(l, key))
}

/// The span between the first and the last moment, in milliseconds, where there
/// are at least two.
pub open spec fn span_of(lines: Seq<LineView>) -> Option<int> {
    if all_millis(lines).len() >= 2 {
        Some(greatest(all_millis(lines)).unwrap() - least(all_millis(lines)).unwrap())
    } else {
        None
    }
}

/// Whether the counts over the lines are 64-bit signed integers.
pub open spec fn countable(lines: Seq<LineView>) -> bool {
    &&& in_i64(tokens_in(lines, "input_tokens"@))
    &&& in_i64(tokens_in(lines, "output_tokens"@))
    &&& in_i64(tokens_in(lines, "cache_read_input_tokens"@))
    &&& in_i64(tokens_in(lines, "cache_creation_input_tokens"@))
    &&& messages_in(lines) <= i64::MAX
}

/// An optional integer as a mathematical one.
pub open spec fn opt_int(n: Option<i64>) -> Option<int> {
    match n {
        Some(n) => Some(n as int),
        None => None,
    }
}

/// The identifier of a session: what its lines say, or else the stem of its
/// file's name. A file without a line that can be read holds no session.
pub open spec fn session_uuid(lines: Seq<LineView>, stem: Option<Seq<char>>) -> Option<Seq<char>> {
    if lines.len() == 0 {
        None
    } else {
        match session_id_of(lines) {
            Some(id) => Some(id),
            None => stem,
        }
    }
}

/// Whether a record is what the lines of a file say, under the identifier
/// `uuid`.
pub open spec fn is_session(
    r: SessionRecord,
    lines: Seq<LineView>,
    uuid: Seq<char>,
    source: Seq<char>,
) -> bool {
    &&& r.session_uuid@ == uuid
    &&& opt_text(r.cwd) == cwd_of(lines)
    &&& opt_int(r.started_at) == least(all_secs(lines))
    &&& opt_int(r.ended_at) == greatest(all_secs(lines))
    &&& r.message_count == messages_in(lines)
    &&& opt_text(r.summary) == session_summary(lines)
    &&& r.source_file@ == source
    &&& opt_int(r.duration_ms) == span_of(lines)
    &&& r.input_tokens == tokens_in(lines, "input_tokens"@)
    &&& r.output_tokens == tokens_in(lines, "output_tokens"@)
    &&& r.cache_read_tokens == tokens_in(lines, "cache_read_input_tokens"@)
    &&& r.cache_creation_tokens == tokens_in(lines, "cache_creation_input_tokens"@)
}

/// What has been gathered from the lines of a session file so far.
pub struct SessionScan {
    any: bool,
    session_id: Option<String>,
    cwd: Option<String>,
    first: Option<i64>,
    last: Option<i64>,
    first_ms: Option<i64>,
    last_ms: Option<i64>,
    several_stamps: bool,
    message_count: i64,
    user_summary: Option<String>,
    queued_summary: Option<String>,
    input_tokens: i64,
    output_tokens: i64,
    cache_read_tokens: i64,
    cache_creation_tokens: i64,
    seen: Ghost<Seq<LineView>>,
}

impl SessionScan {
    /// The lines seen so far.
    pub closed spec fn lines(self) -> Seq<LineView> {
        self.seen@
    }

    /// What is kept is what the lines say.
    pub closed spec fn wf(self) -> bool {
        let lines = self.seen@;
        &&& countable(lines)
        &&& self.any == (lines.len() > 0)
        &&& opt_text(self.session_id) == session_id_of(lines)
        &&& opt_text(self.cwd) == cwd_of(lines)
        &&& opt_int(self.first) == least(all_secs(lines))
        &&& opt_int(self.last) == greatest(all_secs(lines))
        &&& opt_int(self.first_ms) == least(all_millis(lines))
        &&& opt_int(self.last_ms) == greatest(all_millis(lines))
        &&& self.several_stamps == (all_millis(lines).len() >= 2)
        &&& self.first_ms is Some ==> -63_000_000_000_000 <= self.first_ms.unwrap()
            <= 254_000_000_000_000
        &&& self.last_ms is Some ==> -63_000_000_000_000 <= self.last_ms.unwrap()
            <= 254_000_000_000_000
        &&& self.message_count == messages_in(lines)
        &&& opt_text(self.user_summary) == first_user_summary(lines)
        &&& opt_text(self.queued_summary) == first_queued_summary(lines)
        &&& self.input_tokens == tokens_in(lines, "input_tokens"@)
        &&& self.output_tokens == tokens_in(lines, "output_tokens"@)
        &&& self.cache_read_tokens == tokens_in(lines, "cache_read_input_tokens"@)
        &&& self.cache_creation_tokens == tokens_in(lines, "cache_creation_input_tokens"@)
    }

    /// Nothing seen yet.
    pub fn new() -> (scan: SessionScan)
        ensures
            scan.wf(),
            scan.lines() == Seq::<LineView>::empty(),
    {
        SessionScan {
            any: false,
            session_id: None,
            cwd: None,
            first: None,
            last: None,
            first_ms: None,
            last_ms: None,
            several_stamps: false,
            message_count: 0,
            user_summary: None,
            queued_summary: None,
            input_tokens: 0,
            output_tokens: 0,
            cache_read_tokens: 0,
            cache_creation_tokens: 0,
            seen: Ghost(Seq::empty()),
        }
    }

    /// Whether the counts still fit once a line is added.
    pub fn accepts(&self, line: &RawLine) -> (ok: bool)
        requires
            self.wf(),
        ensures
            ok == countable(self.lines().push(line@)),
    {
        (self.message_count < i64::MAX || !is_message_line(line)) && fits(
            self.input_tokens,
            usage_count(line, "input_tokens"),
        ) && fits(self.output_tokens, usage_count(line, "output_tokens")) && fits(
            self.cache_read_tokens,
            usage_count(line, "cache_read_input_tokens"),
        ) && fits(
            self.cache_creation_tokens,
            usage_count(line, "cache_creation_input_tokens"),
        )
    }

    /// Takes in one more line.
    pub fn add(&mut self, line: &RawLine)
        requires
            old(self).wf(),
            countable(old(self).lines().push(line@)),
        ensures
            final(self).wf(),
            final(self).lines() == old(self).lines().push(line@),
    {
        let ghost before = self.seen@;
        let ghost l = line@;
        let ghost after = before.push(l);
        proof {
            lemma_maps_grow(before, l);
        }
        self.any = true;
        if self.session_id.is_none() {
            self.session_id = copy_opt(&line.session_id);
        }
        if self.cwd.is_none() {
            self.cwd = kept_cwd(line);
        }
        match instant_of(line) {
            Some(t) => {
                let secs: i64 = t.0;
                let ms: i64 = secs * 1000 + (t.1 / 1_000_000) as i64;
                assert(ms == millis(t));
                self.several_stamps = self.first_ms.is_some();
                proof {
                    lemma_least_is_least(all_millis(before));
                }
                self.first = lesser(self.first, secs);
                self.last = greater(self.last, secs);
                self.first_ms = lesser(self.first_ms, ms);
                self.last_ms = greater(self.last_ms, ms);
            },
            None => {},
        }
        if is_message_line(line) {
            self.message_count = self.message_count + 1;
        }
        if self.user_summary.is_none() {
            self.user_summary = user_text(line);
        }
        if self.queued_summary.is_none() {
            self.queued_summary = queued_text(line);
        }
        self.input_tokens = self.input_tokens + usage_count(line, "input_tokens");
        self.output_tokens = self.output_tokens + usage_count(line, "output_tokens");
        self.cache_read_tokens = self.cache_read_tokens + usage_count(
            line,
            "cache_read_input_tokens",
        );
        self.cache_creation_tokens = self.cache_creation_tokens + usage_count(
            line,
            "cache_creation_input_tokens",
        );
        self.seen = Ghost(after);
    }

    /// The record of the session, under the identifier that the lines gave or
    /// else under the name of the file. Without either, or without a line, there is
    /// none.
    pub fn finish(self, stem: Option<String>, source_file: String) -> (out: Option<SessionRecord>)
        requires
            self.wf(),
        ensures
            match out {
                Some(r) => session_uuid(self.lines(), opt_text(stem)) is Some && is_session(
                    r,
                    self.lines(),
                    session_uuid(self.lines(), opt_text(stem)).unwrap(),
                    source_file@,
                ),
                None => session_uuid(self.lines(), opt_text(stem)) is None,
            },
    {
        if !self.any {
            return None;
        }
        let uuid = match self.session_id {
            Some(id) => id,
            None => match stem {
                Some(s) => s,
                None => {
                    return None;
                },
            },
        };
        let duration_ms: Option<i64> = if self.several_stamps {
            match (self.first_ms, self.last_ms) {
                (Some(a), Some(b)) => Some(b - a),
                _ => None,
            }
        } else {
            None
        };
        proof {
            lemma_least_is_least(all_millis(self.seen@));
            lemma_greatest_is_greatest(all_millis(self.seen@));
        }
        Some(
            SessionRecord {
                session_uuid: uuid,
                cwd: self.cwd,
                started_at: self.first,
                ended_at: self.last,
                message_count: self.message_count,
                summary: match self.user_summary {
                    Some(s) => Some(s),
                    None => self.queued_summary,
                },
                source_file,
                duration_ms,
                input_tokens: self.input_tokens,
                output_tokens: self.output_tokens,
                cache_read_tokens: self.cache_read_tokens,
                cache_creation_tokens: self.cache_creation_tokens,
            },
        )
    }
}

fn fits(a: i64, b: i64) -> (ok: bool)
    ensures
        ok == in_i64(a + b),
{
    a.checked_add(b).is_some()
}

/// A token count of a line: zero where it has none.
fn usage_count(line: &RawLine, key: &str) -> (n: i64)
    ensures
        n == line_tokens(line@, key@),
{
    match &line.message {
        Some(m) => match &m.usage {
            Some(u) => match u.int_at(key) {
                Some(n) => n,
                None => 0,
            },
            None => 0,
        },
        None => 0,
    }
}

proof fn lemma_maps_grow(lines: Seq<LineView>, l: LineView)
    ensures
        lines.push(l).map_values(|l: LineView| l.session_id) == lines.map_values(
            |l: LineView| l.session_id,
        ).push(l.session_id),
        lines.push(l).map_values(|l: LineView| line_cwd(l)) == lines.map_values(
            |l: LineView| line_cwd(l),
        ).push(line_cwd(l)),
        lines.push(l).map_values(|l: LineView| user_summary(l)) == lines.map_values(
            |l: LineView| user_summary(l),
        ).push(user_summary(l)),
        lines.push(l).map_values(|l: LineView| queued_summary(l)) == lines.map_values(
            |l: LineView| queued_summary(l),
        ).push(queued_summary(l)),
{
    assert(lines.push(l).map_values(|l: LineView| l.session_id) =~= lines.map_values(
        |l: LineView| l.session_id,
    ).push(l.session_id));
    assert(lines.push(l).map_values(|l: LineView| line_cwd(l)) =~= lines.map_values(
        |l: LineView| line_cwd(l),
    ).push(line_cwd(l)));
    assert(lines.push(l).map_values(|l: LineView| user_summary(l)) =~= lines.map_values(
        |l: LineView| user_summary(l),
    ).push(user_summary(l)));
    assert(lines.push(l).map_values(|l: LineView| queued_summary(l)) =~= lines.map_values(
        |l: LineView| queued_summary(l),
    ).push(queued_summary(l)));
}

fn is_message_line(line: &RawLine) -> (b: bool)
    ensures
        b == is_message(line@),
{
    opt_is(&line.kind, "user") || opt_is(&line.kind, "assistant")
}

fn kept_cwd(line: &RawLine) -> (out: Option<String>)
    ensures
        opt_text(out) == line_cwd(line@),
{
    match &line.cwd {
        Some(c) => if c.as_str().is_empty() {
            None
        } else {
            Some(c.clone())
        },
        None => None,
    }
}

/// The instant of a line, where it has a readable timestamp.
pub fn instant_of(line: &RawLine) -> (out: Option<(i64, u32)>)
    ensures
        out == line_instant(line@),
        out matches Some(t) ==> -62_167_305_600 <= t.0 <= 253_402_387_199 && t.1 < 2_000_000_000,
{
    match &line.timestamp {
        Some(t) => read_rfc3339(t.as_str()),
        None => None,
    }
}

fn lesser(a: Option<i64>, b: i64) -> (out: Option<i64>)
    ensures
        out == (match a {
            Some(m) => if m <= b {
                Some(m)
            } else {
                Some(b)
            },
            None => Some(b),
        }),
{
    match a {
        Some(m) => if m <= b {
            Some(m)
        } else {
            Some(b)
        },
        None => Some(b),
    }
}

fn greater(a: Option<i64>, b: i64) -> (out: Option<i64>)
    ensures
        out == (match a {
            Some(m) => if m >= b {
                Some(m)
            } else {
                Some(b)
            },
            None => Some(b),
        }),
{
    match a {
        Some(m) => if m >= b {
            Some(m)
        } else {
            Some(b)
        },
        None => Some(b),
    }
}

fn user_text(line: &RawLine) -> (out: Option<String>)
    ensures
        opt_text(out) == user_summary(line@),
{
    if opt_is(&line.kind, "user") {
        let nested: Option<String> = match &line.message {
            Some(m) => extract_text(m.content.as_ref()),
            None => None,
        };
        let text = match nested {
            Some(t) => Some(t),
            None => extract_text(line.content.as_ref()),
        };
        summarise(text)
    } else {
        None
    }
}

fn queued_text(line: &RawLine) -> (out: Option<String>)
    ensures
        opt_text(out) == queued_summary(line@),
{
    if opt_is(&line.kind, "queue-operation") {
        summarise(extract_text(line.content.as_ref()))
    } else {
        None
    }
}

/// The lines that a list holds.
pub open spec fn line_views(lines: Seq<RawLine>) -> Seq<LineView> {
    lines.map_values(|l: RawLine| l@)
}

/// The record of a session file, given its readable lines, the stem of its name
/// and its path.
pub fn parse_session_lines(
    lines: &Vec<RawLine>,
    stem: Option<String>,
    source_file: String,
) -> (out: Option<SessionRecord>)
    requires
        forall|k: int|
            0 <= k <= lines@.len() ==> countable(#[trigger] line_views(lines@).take(k)),
    ensures
        match out {
            Some(r) => session_uuid(line_views(lines@), opt_text(stem)) is Some && is_session(
                r,
                line_views(lines@),
                session_uuid(line_views(lines@), opt_text(stem)).unwrap(),
                source_file@,
            ),
            None => session_uuid(line_views(lines@), opt_text(stem)) is None,
        },
{
    let mut scan = SessionScan::new();
    let ghost all = line_views(lines@);
    let mut i: usize = 0;
    assert(all.take(0) =~= Seq::<LineView>::empty());
    while i < lines.len()
        invariant
            i <= lines@.len(),
            all == line_views(lines@),
            scan.wf(),
            scan.lines() == all.take(i as int),
            forall|k: int| 0 <= k <= lines@.len() ==> countable(#[trigger] all.take(k)),
        decreases lines@.len() - i,
    {
        assert(all.take(i + 1) =~= all.take(i as int).push(all[i as int]));
        scan.add(&lines[i]);
        i = i + 1;
    }
    assert(all.take(i as int) =~= all);
    scan.finish(stem, source_file)
}

/// Whatever a session holds, no more than 200 characters of a message, and an ellipsis,
/// are kept as its summary.
pub proof fn law_summary_is_short(lines: Seq<LineView>)
    ensures
        session_summary(lines) matches Some(s) ==> 0 < s.len() <= 201 && (s.len() == 201 ==> s.last()
            == '…'),
{
    lemma_first_is_short(lines.map_values(|l: LineView| user_summary(l)));
    lemma_first_is_short(lines.map_values(|l: LineView| queued_summary(l)));
}

/// The first of the summaries is one of them.
proof fn lemma_first_is_short(summaries: Seq<Option<Seq<char>>>)
    requires
        forall|i: int|
            0 <= i < summaries.len() ==> ((#[trigger] summaries[i]) matches Some(s) ==> 0 < s.len()
                <= 201 && (s.len() == 201 ==> s.last() == '…')),
    ensures
        first_some(summaries) matches Some(s) ==> 0 < s.len() <= 201 && (s.len() == 201 ==> s.last()
            == '…'),
    decreases summaries.len(),
{
    if summaries.len() > 0 {
        let rest = summaries.drop_last();
        assert forall|i: int| 0 <= i < rest.len() implies ((#[trigger] rest[i]) matches Some(s)
            ==> 0 < s.len() <= 201 && (s.len() == 201 ==> s.last() == '…')) by {
            assert(rest[i] == summaries[i]);
        }
        lemma_first_is_short(rest);
        assert(summaries[summaries.len() - 1] == summaries.last());
    }
}

/// A session starts before it ends, and its span is not negative.
pub proof fn law_sessions_end_after_their_start(lines: Seq<LineView>)
    ensures
        least(all_secs(lines)) is Some <==> greatest(all_secs(lines)) is Some,
        least(all_secs(lines)) matches Some(a) ==> greatest(all_secs(lines)) matches Some(b) ==> a
            <= b,
        span_of(lines) matches Some(ms) ==> ms >= 0,
{
    lemma_least_is_least(all_secs(lines));
    lemma_greatest_is_greatest(all_secs(lines));
    lemma_least_is_least(all_millis(lines));
    lemma_greatest_is_greatest(all_millis(lines));
    if all_secs(lines).len() > 0 {
        assert(least(all_secs(lines)).unwrap() <= all_secs(lines)[0]);
        assert(all_secs(lines)[0] <= greatest(all_secs(lines)).unwrap());
    }
    if all_millis(lines).len() > 0 {
        assert(least(all_millis(lines)).unwrap() <= all_millis(lines)[0]);
        assert(all_millis(lines)[0] <= greatest(all_millis(lines)).unwrap());
    }
}

// ---------------------------------------------------------------------------
// Laws
// ---------------------------------------------------------------------------

/// Whether a content begins to say a text: it is the text, or the first of its blocks of
/// type `text` that have one has it.
pub open spec fn says(content: JsonTree, t: Seq<char>) -> bool {
    ||| content == JsonTree::Text(t)
    ||| content is Array && exists|b: int|
        0 <= b < content->Array_0.len() && #[trigger] has_text(content->Array_0[b], t) && forall|
            i: int,
        |
            0 <= i < b ==> member(#[trigger] content->Array_0[i], "type"@) != Some(
                JsonTree::Text("text"@),
            )
}

/// Whether a block is of type `text`, and has a text.
pub open spec fn has_text(block: JsonTree, t: Seq<char>) -> bool {
    &&& member(block, "type"@) == Some(JsonTree::Text("text"@))
    &&& member(block, "text"@) == Some(JsonTree::Text(t))
}

/// Whether a text is another one with nothing white around it, cut to 200 characters and
/// an ellipsis.
pub open spec fn abridges(s: Seq<char>, t: Seq<char>) -> bool {
    let inner = trimmed(t);
    if inner.len() <= 200 {
        s == inner
    } else {
        s.len() == 201 && s.take(200) == inner.take(200) && s[200] == '…'
    }
}

proof fn lemma_says(content: JsonTree, t: Seq<char>)
    requires
        says(content, t),
    ensures
        first_text(Some(content)) == Some(t),
        trimmed(t).len() > 0 ==> summary_of(Some(t)) is Some && abridges(
            summary_of(Some(t)).unwrap(),
            t,
        ),
{
    if content != JsonTree::Text(t) {
        let blocks = content->Array_0;
        let b = choose|b: int|
            0 <= b < blocks.len() && #[trigger] has_text(blocks[b], t) && forall|i: int|
                0 <= i < b ==> member(#[trigger] blocks[i], "type"@) != Some(
                    JsonTree::Text("text"@),
                );
        let found = blocks.map_values(|x: JsonTree| block_text(x));
        reveal_strlit("text");
        assert forall|i: int| 0 <= i < b implies (#[trigger] found[i]) is None by {
            assert(member(blocks[i], "type"@) != Some(JsonTree::Text("text"@)));
            assert("text"@.len() > 0);
        }
        law_the_first_value_counts(found, b);
    }
    let inner = trimmed(t);
    if inner.len() > 200 {
        assert(inner.take(200).push('…').take(200) =~= inner.take(200));
    }
}

/// The summary of a session is what its first user message says, in the message or else in
/// the line itself, trimmed and cut to 200 characters, whatever prompts were queued.
pub proof fn law_the_first_user_message_is_the_summary(
    r: SessionRecord,
    lines: Seq<LineView>,
    uuid: Seq<char>,
    source: Seq<char>,
    k: int,
    t: Seq<char>,
)
    requires
        is_session(r, lines, uuid, source),
        0 <= k < lines.len(),
        lines[k].kind == Some("user"@),
        lines[k].message_content is Some && says(lines[k].message_content.unwrap(), t)
            || lines[k].message_content is None && lines[k].content is Some && says(
            lines[k].content.unwrap(),
            t,
        ),
        trimmed(t).len() > 0,
        forall|i: int|
            0 <= i < k ==> (#[trigger] lines[i]).kind != Some("user"@) || lines[i].message_content is None
                && lines[i].content is None,
    ensures
        r.summary is Some,
        abridges(r.summary.unwrap()@, t),
{
    let all = lines.map_values(|l: LineView| user_summary(l));
    if lines[k].message_content is Some {
        lemma_says(lines[k].message_content.unwrap(), t);
    } else {
        lemma_says(lines[k].content.unwrap(), t);
    }
    assert forall|i: int| 0 <= i < k implies (#[trigger] all[i]) is None by {
        assert(all[i] == user_summary(lines[i]));
    }
    assert(all[k] == user_summary(lines[k]));
    law_the_first_value_counts(all, k);
}

/// Without anything from the user, the summary of a session is the first prompt that was
/// queued, trimmed and cut to 200 characters; without that there is none.
pub proof fn law_queued_prompts_stand_in(
    r: SessionRecord,
    lines: Seq<LineView>,
    uuid: Seq<char>,
    source: Seq<char>,
    k: int,
    t: Seq<char>,
)
    requires
        is_session(r, lines, uuid, source),
        0 <= k <= lines.len(),
        forall|i: int|
            0 <= i < lines.len() ==> (#[trigger] lines[i]).kind != Some("user"@)
                || lines[i].message_content is None && lines[i].content is None,
        forall|i: int|
            0 <= i < k ==> (#[trigger] lines[i]).kind != Some("queue-operation"@)
                || lines[i].content is None,
        k < lines.len() ==> lines[k].kind == Some("queue-operation"@) && lines[k].content is Some
            && says(lines[k].content.unwrap(), t) && trimmed(t).len() > 0,
    ensures
        k < lines.len() ==> r.summary is Some && abridges(r.summary.unwrap()@, t),
        k == lines.len() ==> r.summary is None,
{
    let users = lines.map_values(|l: LineView| user_summary(l));
    assert forall|i: int| 0 <= i < lines.len() implies (#[trigger] users[i]) is None by {
        assert(users[i] == user_summary(lines[i]));
    }
    law_the_first_value_counts(users, lines.len() as int);
    let queued = lines.map_values(|l: LineView| queued_summary(l));
    assert forall|i: int| 0 <= i < k implies (#[trigger] queued[i]) is None by {
        assert(queued[i] == queued_summary(lines[i]));
    }
    if k < lines.len() {
        lemma_says(lines[k].content.unwrap(), t);
        assert(queued[k] == queued_summary(lines[k]));
    }
    law_the_first_value_counts(queued, k);
}

/// A session goes by the first identifier in its lines, and without any by the stem of its
/// file's name; without a line there is no session.
pub proof fn law_sessions_go_by_their_first_id(
    lines: Seq<LineView>,
    stem: Option<Seq<char>>,
    k: int,
)
    requires
        0 <= k <= lines.len(),
        k < lines.len() ==> lines[k].session_id is Some,
        forall|i: int| 0 <= i < k ==> (#[trigger] lines[i]).session_id is None,
    ensures
        k < lines.len() ==> session_uuid(lines, stem) == lines[k].session_id,
        0 < lines.len() == k ==> session_uuid(lines, stem) == stem,
        lines.len() == 0 ==> session_uuid(lines, stem) is None,
{
    let ids = lines.map_values(|l: LineView| l.session_id);
    assert forall|i: int| 0 <= i < k implies (#[trigger] ids[i]) is None by {
        assert(ids[i] == lines[i].session_id);
    }
    law_the_first_value_counts(ids, k);
}

/// The working directory of a session is the first one in its lines that is not empty.
pub proof fn law_sessions_run_in_their_first_directory(
    r: SessionRecord,
    lines: Seq<LineView>,
    uuid: Seq<char>,
    source: Seq<char>,
    k: int,
)
    requires
        is_session(r, lines, uuid, source),
        0 <= k <= lines.len(),
        k < lines.len() ==> lines[k].cwd is Some && lines[k].cwd.unwrap().len() > 0,
        forall|i: int|
            0 <= i < k ==> (#[trigger] lines[i]).cwd is None || lines[i].cwd.unwrap().len() == 0,
    ensures
        k < lines.len() ==> r.cwd is Some && r.cwd.unwrap()@ == lines[k].cwd.unwrap(),
        k == lines.len() ==> r.cwd is None,
        r.session_uuid@ == uuid,
        r.source_file@ == source,
{
    let dirs = lines.map_values(|l: LineView| line_cwd(l));
    assert forall|i: int| 0 <= i < k implies (#[trigger] dirs[i]) is None by {
        assert(dirs[i] == line_cwd(lines[i]));
    }
    if k < lines.len() {
        assert(dirs[k] == line_cwd(lines[k]));
    }
    law_the_first_value_counts(dirs, k);
}

/// The messages of a session are its lines of the user and of the assistant.
pub proof fn law_messages_are_counted(
    r: SessionRecord,
    lines: Seq<LineView>,
    uuid: Seq<char>,
    source: Seq<char>,
)
    requires
        is_session(r, lines, uuid, source),
    ensures
        r.message_count == lines.filter(
            |l: LineView| l.kind == Some("user"@) || l.kind == Some("assistant"@),
        ).len(),
{
    let p = |l: LineView| l.kind == Some("user"@) || l.kind == Some("assistant"@);
    law_counting_is_filtering(lines, p);
    assert(p =~= (|l: LineView| is_message(l)));
}

/// How many tokens a line counts under a key.
pub open spec fn counts_under(l: LineView, key: Seq<char>, n: int) -> bool {
    match l.usage {
        Some(usage) => match member(usage, key) {
            Some(JsonTree::Number(Some(m), _)) => n == m,
            _ => n == 0,
        },
        None => n == 0,
    }
}

/// Every line adds to the tokens of a session what it counts of each sort, and nothing has
/// none: `r` is the record of the lines before it, and `s` that of the lines with it.
pub proof fn law_tokens_add_up(
    r: SessionRecord,
    s: SessionRecord,
    lines: Seq<LineView>,
    l: LineView,
    uuid: Seq<char>,
    source: Seq<char>,
    n: int,
)
    requires
        is_session(r, lines, uuid, source),
        is_session(s, lines.push(l), uuid, source),
    ensures
        counts_under(l, "input_tokens"@, n) ==> s.input_tokens == r.input_tokens + n,
        counts_under(l, "output_tokens"@, n) ==> s.output_tokens == r.output_tokens + n,
        counts_under(l, "cache_read_input_tokens"@, n) ==> s.cache_read_tokens
            == r.cache_read_tokens + n,
        counts_under(l, "cache_creation_input_tokens"@, n) ==> s.cache_creation_tokens
            == r.cache_creation_tokens + n,
        lines.len() == 0 ==> r.input_tokens == 0 && r.output_tokens == 0 && r.cache_read_tokens == 0
            && r.cache_creation_tokens == 0,
{
}

/// The moment of a line, where it has a timestamp that can be read.
pub open spec fn moment(l: LineView) -> Option<(i64, u32)> {
    match l.timestamp {
        Some(text) => rfc3339_instant(text),
        None => None,
    }
}

/// A session starts at the earliest second of its lines and ends at the latest, whatever
/// their order.
pub proof fn law_sessions_span_their_lines(
    r: SessionRecord,
    lines: Seq<LineView>,
    uuid: Seq<char>,
    source: Seq<char>,
)
    requires
        is_session(r, lines, uuid, source),
    ensures
        r.started_at is Some <==> exists|i: int|
            0 <= i < lines.len() && moment(#[trigger] lines[i]) is Some,
        r.ended_at is Some <==> r.started_at is Some,
        forall|i: int|
            0 <= i < lines.len() && moment(#[trigger] lines[i]) is Some ==> r.started_at.unwrap()
                <= moment(lines[i]).unwrap().0 <= r.ended_at.unwrap(),
        r.started_at is Some ==> exists|i: int|
            0 <= i < lines.len() && moment(#[trigger] lines[i]) is Some && moment(
                lines[i],
            ).unwrap().0 == r.started_at.unwrap(),
        r.started_at is Some ==> exists|i: int|
            0 <= i < lines.len() && moment(#[trigger] lines[i]) is Some && moment(
                lines[i],
            ).unwrap().0 == r.ended_at.unwrap(),
{
    let f = |l: LineView| line_secs(l);
    let all = all_secs(lines);
    lemma_least_is_least(all);
    lemma_greatest_is_greatest(all);
    law_two_are_gathered(lines, f);
    if exists|i: int| 0 <= i < lines.len() && moment(#[trigger] lines[i]) is Some {
        let i = choose|i: int| 0 <= i < lines.len() && moment(#[trigger] lines[i]) is Some;
        assert(f(lines[i]) is Some);
    }
    if all.len() > 0 {
        let i = choose|i: int| 0 <= i < lines.len() && f(#[trigger] lines[i]) is Some;
        assert(moment(lines[i]) is Some);
        law_what_is_gathered(lines, f, least(all).unwrap());
        law_what_is_gathered(lines, f, greatest(all).unwrap());
        let a = choose|a: int|
            0 <= a < lines.len() && f(#[trigger] lines[a]) == Some(least(all).unwrap());
        assert(moment(lines[a]) is Some);
        let b = choose|b: int|
            0 <= b < lines.len() && f(#[trigger] lines[b]) == Some(greatest(all).unwrap());
        assert(moment(lines[b]) is Some);
    }
    assert forall|i: int|
        0 <= i < lines.len() && moment(#[trigger] lines[i]) is Some implies r.started_at.unwrap()
        <= moment(lines[i]).unwrap().0 <= r.ended_at.unwrap() by {
        let x = moment(lines[i]).unwrap().0 as int;
        assert(f(lines[i]) == Some(x));
        law_what_is_gathered(lines, f, x);
        let k = choose|k: int| 0 <= k < all.len() && all[k] == x;
        assert(least(all).unwrap() <= all[k] <= greatest(all).unwrap());
    }
}

/// The milliseconds of a moment since the epoch.
pub open spec fn in_millis(t: (i64, u32)) -> int {
    1_000 * t.0 + t.1 as int / 1_000_000
}

/// The duration of a session is the greatest distance between two of its lines, in
/// milliseconds, and there is none of a session with fewer than two moments.
pub proof fn law_durations_are_distances(
    r: SessionRecord,
    lines: Seq<LineView>,
    uuid: Seq<char>,
    source: Seq<char>,
)
    requires
        is_session(r, lines, uuid, source),
    ensures
        r.duration_ms is Some <==> exists|i: int, j: int|
            0 <= i < j < lines.len() && moment(#[trigger] lines[i]) is Some && moment(
                #[trigger] lines[j],
            ) is Some,
        r.duration_ms is Some ==> forall|i: int, j: int|
            0 <= i < lines.len() && 0 <= j < lines.len() && moment(#[trigger] lines[i]) is Some
                && moment(#[trigger] lines[j]) is Some ==> in_millis(moment(lines[j]).unwrap())
                - in_millis(moment(lines[i]).unwrap()) <= r.duration_ms.unwrap(),
        r.duration_ms is Some ==> exists|i: int, j: int|
            0 <= i < lines.len() && 0 <= j < lines.len() && moment(#[trigger] lines[i]) is Some
                && moment(#[trigger] lines[j]) is Some && in_millis(moment(lines[j]).unwrap())
                - in_millis(moment(lines[i]).unwrap()) == r.duration_ms.unwrap(),
{
    let f = |l: LineView| line_millis(l);
    let all = all_millis(lines);
    lemma_least_is_least(all);
    lemma_greatest_is_greatest(all);
    law_two_are_gathered(lines, f);
    if exists|i: int, j: int|
        0 <= i < j < lines.len() && moment(#[trigger] lines[i]) is Some && moment(
            #[trigger] lines[j],
        ) is Some {
        let (i, j) = choose|i: int, j: int|
            0 <= i < j < lines.len() && moment(#[trigger] lines[i]) is Some && moment(
                #[trigger] lines[j],
            ) is Some;
        assert(f(lines[i]) is Some && f(lines[j]) is Some);
    }
    if all.len() >= 2 {
        let (i, j) = choose|i: int, j: int|
            0 <= i < j < lines.len() && f(#[trigger] lines[i]) is Some && f(#[trigger] lines[j]) is Some;
        assert(moment(lines[i]) is Some && moment(lines[j]) is Some);
        law_what_is_gathered(lines, f, least(all).unwrap());
        law_what_is_gathered(lines, f, greatest(all).unwrap());
        let a = choose|a: int|
            0 <= a < lines.len() && f(#[trigger] lines[a]) == Some(least(all).unwrap());
        let b = choose|b: int|
            0 <= b < lines.len() && f(#[trigger] lines[b]) == Some(greatest(all).unwrap());
        assert(moment(lines[a]) is Some && moment(lines[b]) is Some);
        assert(in_millis(moment(lines[b]).unwrap()) - in_millis(moment(lines[a]).unwrap())
            == r.duration_ms.unwrap());
        assert forall|i: int, j: int|
            0 <= i < lines.len() && 0 <= j < lines.len() && moment(#[trigger] lines[i]) is Some
                && moment(#[trigger] lines[j]) is Some implies in_millis(moment(lines[j]).unwrap())
            - in_millis(moment(lines[i]).unwrap()) <= r.duration_ms.unwrap() by {
            let (x, y) = (in_millis(moment(lines[i]).unwrap()), in_millis(moment(lines[j]).unwrap()));
            assert(f(lines[i]) == Some(x) && f(lines[j]) == Some(y));
            law_what_is_gathered(lines, f, x);
            law_what_is_gathered(lines, f, y);
            let p = choose|p: int| 0 <= p < all.len() && all[p] == x;
            let q = choose|q: int| 0 <= q < all.len() && all[q] == y;
            assert(least(all).unwrap() <= all[p]);
            assert(all[q] <= greatest(all).unwrap());
        }
    }
}

/// A text of at most so many characters is kept as it is, and of a longer one these
/// characters and an ellipsis are kept.
pub proof fn law_long_texts_are_cut(s: Seq<char>, max: nat)
    ensures
        s.len() <= max ==> shortened(s, max) == s,
        s.len() > max ==> shortened(s, max).len() == max + 1 && shortened(s, max).take(max as int)
            == s.take(max as int) && shortened(s, max)[max as int] == '…',
{
    if s.len() > max {
        assert(shortened(s, max).take(max as int) =~= s.take(max as int));
    }
}

} // verus!
