//! The transcript of a session: one turn per message, with its prose, its tool
//! calls and their results.

use crate::clock::rfc3339_instant;
use crate::json::{
    items_in, lemma_container_views, member, member_text, text_in, trees, Json, JsonTree,
};
use crate::seqs::{
    gather, group_list_steps, law_two_are_gathered, law_what_is_gathered,
};
use crate::sessions::{
    block_text, block_type, instant_of, line_instant, line_views, shortened, text_of_block,
    truncate, type_of_block, LineView, RawLine,
};
use crate::text::{is_blank, join, joined, opt_is, opt_text, str_eq, texts, trimmed};
use vstd::prelude::*;

verus! {

broadcast use group_list_steps;

/// Who spoke.
#[derive(Debug, Clone, Copy, PartialEq, Eq, Structural)]
pub enum TurnRole {
    User,
    Assistant,
    System,
}

/// A turn that can be shown.
#[derive(Debug, Clone)]
pub struct Turn {
    pub role: TurnRole,
    pub timestamp: Option<i64>,
    /// Plain text blocks.
    pub texts: Vec<String>,
    /// Tool uses: the name of the tool, and its arguments as JSON.
    pub tool_uses: Vec<(String, String)>,
    /// Tool results, shortened to a preview.
    pub tool_results: Vec<String>,
    /// Reasoning blocks.
    pub thinking: Vec<String>,
}

/// What a turn says.
#[verifier::ext_equal]
pub struct TurnView {
    pub role: TurnRole,
    pub timestamp: Option<i64>,
    pub texts: Seq<Seq<char>>,
    pub tool_uses: Seq<(Seq<char>, Seq<char>)>,
    pub tool_results: Seq<Seq<char>>,
    pub thinking: Seq<Seq<char>>,
}

/// The names and arguments that a list of tool uses holds.
pub open spec fn pairs(uses: Seq<(String, String)>) -> Seq<(Seq<char>, Seq<char>)> {
    uses.map_values(|u: (String, String)| (u.0@, u.1@))
}

impl View for Turn {
    type V = TurnView;

    open spec fn view(&self) -> TurnView {
        TurnView {
            role: self.role,
            timestamp: self.timestamp,
            texts: texts(self.texts@),
            tool_uses: pairs(self.tool_uses@),
            tool_results: texts(self.tool_results@),
            thinking: texts(self.thinking@),
        }
    }
}

// ---------------------------------------------------------------------------
// Blocks of content
// ---------------------------------------------------------------------------

/// The text of a block of type `thinking`.
pub open spec fn block_thinking(block: JsonTree) -> Option<Seq<char>> {
    if block_type(block) == "thinking"@ {
        text_in(member(block, "thinking"@))
    } else {
        None
    }
}

/// The tool and the arguments of a block of type `tool_use`, the arguments in compact
/// form.
pub open spec fn block_tool_use(block: JsonTree) -> Option<(Seq<char>, Seq<char>)> {
    if block_type(block) == "tool_use"@ {
        Some(
            (
                match text_in(member(block, "name"@)) {
                    Some(name) => name,
                    None => "(tool)"@,
                },
                match member_text(block, "input"@) {
                    Some(input) => input,
                    None => Seq::empty(),
                },
            ),
        )
    } else {
        None
    }
}

/// The text of a tool's result, which is a plain string or an array of texts.
pub open spec fn result_text(content: Option<JsonTree>) -> Seq<char> {
    match content {
        Some(JsonTree::Text(s)) => s,
        Some(JsonTree::Array(items)) => joined(
            gather(items, |b: JsonTree| text_in(member(b, "text"@))),
            "\n"@,
        ),
        _ => Seq::empty(),
    }
}

/// The preview of a block of type `tool_result`, unless its text is blank.
pub open spec fn block_result(block: JsonTree) -> Option<Seq<char>> {
    if block_type(block) == "tool_result"@ {
        let text = result_text(member(block, "content"@));
        if trimmed(text).len() > 0 {
            Some(shortened(text, 2000))
        } else {
            None
        }
    } else {
        None
    }
}

/// The blocks of a content that is an array.
pub open spec fn blocks_of(content: JsonTree) -> Seq<JsonTree> {
    match items_in(Some(content)) {
        Some(blocks) => blocks,
        None => Seq::empty(),
    }
}

/// The prose of a content: itself where it is a text that is not blank.
pub open spec fn prose_of(content: JsonTree) -> Seq<Seq<char>> {
    match content {
        JsonTree::Text(s) => if trimmed(s).len() > 0 {
            seq![s]
        } else {
            Seq::empty()
        },
        _ => gather(blocks_of(content), |b: JsonTree| block_text(b)),
    }
}

/// A turn with what a content adds to it.
pub open spec fn with_content(turn: TurnView, content: JsonTree) -> TurnView {
    let blocks = blocks_of(content);
    TurnView {
        role: turn.role,
        timestamp: turn.timestamp,
        texts: turn.texts + prose_of(content),
        tool_uses: turn.tool_uses + gather(blocks, |b: JsonTree| block_tool_use(b)),
        tool_results: turn.tool_results + gather(blocks, |b: JsonTree| block_result(b)),
        thinking: turn.thinking + gather(blocks, |b: JsonTree| block_thinking(b)),
    }
}

fn thinking_of_block(block: &Json) -> (out: Option<String>)
    ensures
        opt_text(out) == block_thinking(block@),
{
    if str_eq(type_of_block(block).as_str(), "thinking") {
        match block.text_at("thinking") {
            Some(t) => Some(t.clone()),
            None => None,
        }
    } else {
        None
    }
}

fn tool_use_of_block(block: &Json) -> (out: Option<(String, String)>)
    ensures
        match out {
            Some(u) => block_tool_use(block@) == Some((u.0@, u.1@)),
            None => block_tool_use(block@) is None,
        },
{
    if str_eq(type_of_block(block).as_str(), "tool_use") {
        let name = match block.text_at("name") {
            Some(n) => n.clone(),
            None => "(tool)".to_owned(),
        };
        let args = match block.compact_at("input") {
            Some(input) => input.clone(),
            None => String::new(),
        };
        Some((name, args))
    } else {
        None
    }
}

/// The texts of the items of an array that have one.
fn texts_of_items(items: &Vec<Json>) -> (out: Vec<String>)
    ensures
        texts(out@) == gather(trees(items@), |b: JsonTree| text_in(member(b, "text"@))),
{
    let mut out: Vec<String> = Vec::new();
    let ghost all = trees(items@);
    let ghost f = |b: JsonTree| text_in(member(b, "text"@));
    let mut i: usize = 0;
    assert(all.take(0) =~= Seq::<JsonTree>::empty());
    assert(texts(out@) =~= gather(all.take(0), f));
    while i < items.len()
        invariant
            i <= items@.len(),
            all == trees(items@),
            f == (|b: JsonTree| text_in(member(b, "text"@))),
            texts(out@) == gather(all.take(i as int), f),
        decreases items@.len() - i,
    {
        let ghost before = out@;
        assert(all.take(i + 1) =~= all.take(i as int).push(items@[i as int]@));
        match items[i].text_at("text") {
            Some(t) => {
                out.push(t.clone());
                assert(texts(out@) =~= texts(before).push(t@));
            },
            None => {},
        }
        i = i + 1;
    }
    assert(all.take(i as int) =~= all);
    out
}

fn text_of_result(content: Option<&Json>) -> (out: String)
    ensures
        out@ == result_text(
            match content {
                Some(c) => Some(c@),
                None => None,
            },
        ),
{
    match content {
        Some(c) => {
            proof {
                lemma_container_views(*c);
            }
            match c {
                Json::Text(s) => s.clone(),
                Json::Array(items) => {
                    let parts = texts_of_items(items);
                    join(&parts, "\n")
                },
                _ => String::new(),
            }
        },
        None => String::new(),
    }
}

fn result_of_block(block: &Json) -> (out: Option<String>)
    ensures
        opt_text(out) == block_result(block@),
{
    if str_eq(type_of_block(block).as_str(), "tool_result") {
        let text = text_of_result(block.get("content"));
        if is_blank(text.as_str()) {
            None
        } else {
            Some(truncate(text.as_str(), 2000))
        }
    } else {
        None
    }
}

spec fn appended<T>(s: Seq<T>, x: Option<T>) -> Seq<T> {
    match x {
        Some(y) => s.push(y),
        None => s,
    }
}

proof fn lemma_block_step(turn: TurnView, blocks: Seq<JsonTree>, b: JsonTree)
    ensures
        ({
            let w = with_content(turn, JsonTree::Array(blocks));
            let n = with_content(turn, JsonTree::Array(blocks.push(b)));
            &&& n.texts == appended(w.texts, block_text(b))
            &&& n.tool_uses == appended(w.tool_uses, block_tool_use(b))
            &&& n.tool_results == appended(w.tool_results, block_result(b))
            &&& n.thinking == appended(w.thinking, block_thinking(b))
        }),
{
    let w = with_content(turn, JsonTree::Array(blocks));
    let n = with_content(turn, JsonTree::Array(blocks.push(b)));
    assert(n.texts =~= appended(w.texts, block_text(b)));
    assert(n.tool_uses =~= appended(w.tool_uses, block_tool_use(b)));
    assert(n.tool_results =~= appended(w.tool_results, block_result(b)));
    assert(n.thinking =~= appended(w.thinking, block_thinking(b)));
}

/// Adds a content to a turn.
pub fn walk_content(content: &Json, turn: &mut Turn)
    ensures
        final(turn)@ == with_content(old(turn)@, content@),
{
    let ghost start = turn@;
    proof {
        lemma_container_views(*content);
    }
    match content {
        Json::Text(s) => {
            if !is_blank(s.as_str()) {
                turn.texts.push(s.clone());
            }
            assert(turn@ =~= with_content(start, content@));
        },
        Json::Array(blocks) => {
            let ghost all = trees(blocks@);
            let mut i: usize = 0;
            assert(all.take(0) =~= Seq::<JsonTree>::empty());
            assert(turn@ =~= with_content(start, JsonTree::Array(all.take(0))));
            while i < blocks.len()
                invariant
                    i <= blocks@.len(),
                    all == trees(blocks@),
                    turn@ == with_content(start, JsonTree::Array(all.take(i as int))),
                decreases blocks@.len() - i,
            {
                let block = &blocks[i];
                let ghost so_far = turn@;
                assert(all.take(i + 1) =~= all.take(i as int).push(block@));
                match text_of_block(block) {
                    Some(t) => turn.texts.push(t),
                    None => {},
                }
                match thinking_of_block(block) {
                    Some(t) => turn.thinking.push(t),
                    None => {},
                }
                match tool_use_of_block(block) {
                    Some(u) => turn.tool_uses.push(u),
                    None => {},
                }
                match result_of_block(block) {
                    Some(t) => turn.tool_results.push(t),
                    None => {},
                }
                proof {
                    lemma_block_step(start, all.take(i as int), block@);
                    let next = with_content(start, JsonTree::Array(all.take(i + 1)));
                    assert(texts(turn.texts@) =~= next.texts);
                    assert(texts(turn.thinking@) =~= next.thinking);
                    assert(pairs(turn.tool_uses@) =~= next.tool_uses);
                    assert(texts(turn.tool_results@) =~= next.tool_results);
                }
                i = i + 1;
            }
            assert(all.take(i as int) =~= all);
        },
        _ => {
            assert(turn@ =~= with_content(start, content@));
        },
    }
}

// ---------------------------------------------------------------------------
// Lines
// ---------------------------------------------------------------------------

/// Who spoke in a line of the given type.
pub open spec fn role_of(kind: Option<Seq<char>>) -> Option<TurnRole> {
    if kind == Some("user"@) {
        Some(TurnRole::User)
    } else if kind == Some("assistant"@) {
        Some(TurnRole::Assistant)
    } else if kind == Some("system"@) {
        Some(TurnRole::System)
    } else {
        None
    }
}

/// Whether a turn has anything to show.
pub open spec fn visible(turn: TurnView) -> bool {
    turn.texts.len() > 0 || turn.tool_uses.len() > 0 || turn.tool_results.len() > 0
        || turn.thinking.len() > 0
}

/// A turn before any content.
pub open spec fn bare_turn(role: TurnRole, timestamp: Option<i64>) -> TurnView {
    TurnView {
        role,
        timestamp,
        texts: Seq::empty(),
        tool_uses: Seq::empty(),
        tool_results: Seq::empty(),
        thinking: Seq::empty(),
    }
}

/// The turn of a line: that of its message's content, or else of its own.
pub open spec fn full_turn(role: TurnRole, l: LineView) -> TurnView {
    let bare = bare_turn(
        role,
        match line_instant(l) {
            Some(t) => Some(t.0),
            None => None,
        },
    );
    match (l.message_content, l.content) {
        (Some(c), _) => with_content(bare, c),
        (None, Some(c)) => with_content(bare, c),
        (None, None) => bare,
    }
}

/// The turn of a line, where the line is one and has anything to show.
pub open spec fn turn_of(l: LineView) -> Option<TurnView> {
    match role_of(l.kind) {
        Some(role) => if visible(full_turn(role, l)) {
            Some(full_turn(role, l))
        } else {
            None
        },
        None => None,
    }
}

/// The turns that a list holds.
pub open spec fn turn_views(turns: Seq<Turn>) -> Seq<TurnView> {
    turns.map_values(|t: Turn| t@)
}

fn role_of_line(line: &RawLine) -> (out: Option<TurnRole>)
    ensures
        out == role_of(line@.kind),
{
    if opt_is(&line.kind, "user") {
        Some(TurnRole::User)
    } else if opt_is(&line.kind, "assistant") {
        Some(TurnRole::Assistant)
    } else if opt_is(&line.kind, "system") {
        Some(TurnRole::System)
    } else {
        None
    }
}

/// The turn of a line, where the line is one and has anything to show.
pub fn turn_of_line(line: &RawLine) -> (out: Option<Turn>)
    ensures
        match out {
            Some(t) => turn_of(line@) == Some(t@),
            None => turn_of(line@) is None,
        },
{
    let role = match role_of_line(line) {
        Some(r) => r,
        None => {
            return None;
        },
    };
    let timestamp: Option<i64> = match instant_of(line) {
        Some(t) => Some(t.0),
        None => None,
    };
    let mut turn = Turn {
        role,
        timestamp,
        texts: Vec::new(),
        tool_uses: Vec::new(),
        tool_results: Vec::new(),
        thinking: Vec::new(),
    };
    assert(turn@ =~= bare_turn(role, timestamp));
    let nested: Option<&Json> = match &line.message {
        Some(m) => m.content.as_ref(),
        None => None,
    };
    match nested {
        Some(c) => walk_content(c, &mut turn),
        None => match &line.content {
            Some(c) => walk_content(c, &mut turn),
            None => {},
        },
    }
    assert(turn@ == full_turn(role, line@));
    if turn.texts.len() > 0 || turn.tool_uses.len() > 0 || turn.tool_results.len() > 0
        || turn.thinking.len() > 0 {
        Some(turn)
    } else {
        None
    }
}

/// The turns of a session file, given its readable lines.
pub fn parse_transcript_lines(lines: &Vec<RawLine>) -> (out: Vec<Turn>)
    ensures
        turn_views(out@) == gather(line_views(lines@), |l: LineView| turn_of(l)),
{
    let mut out: Vec<Turn> = Vec::new();
    let ghost all = line_views(lines@);
    let ghost f = |l: LineView| turn_of(l);
    let mut i: usize = 0;
    assert(all.take(0) =~= Seq::<LineView>::empty());
    assert(turn_views(out@) =~= gather(all.take(0), f));
    while i < lines.len()
        invariant
            i <= lines@.len(),
            all == line_views(lines@),
            f == (|l: LineView| turn_of(l)),
            turn_views(out@) == gather(all.take(i as int), f),
        decreases lines@.len() - i,
    {
        let ghost before = out@;
        assert(all.take(i + 1) =~= all.take(i as int).push(lines@[i as int]@));
        match turn_of_line(&lines[i]) {
            Some(t) => {
                out.push(t);
                assert(turn_views(out@) =~= turn_views(before).push(t@));
            },
            None => {},
        }
        i = i + 1;
    }
    assert(all.take(i as int) =~= all);
    out
}

// ---------------------------------------------------------------------------
// Laws
// ---------------------------------------------------------------------------

/// The content of a line: that of its message where it has one, or else its own.
pub open spec fn content_of(l: LineView) -> Option<JsonTree> {
    if l.message_content is Some {
        l.message_content
    } else {
        l.content
    }
}

/// Whether a block is of a type.
pub open spec fn is_of(block: JsonTree, kind: Seq<char>) -> bool {
    member(block, "type"@) == Some(JsonTree::Text(kind))
}

/// The types of blocks that are shown differ.
proof fn lemma_block_types()
    ensures
        "text"@ != "thinking"@,
        "text"@ != "tool_use"@,
        "text"@ != "tool_result"@,
        "thinking"@ != "tool_use"@,
        "thinking"@ != "tool_result"@,
        "tool_use"@ != "tool_result"@,
        "text"@.len() > 0,
        "thinking"@.len() > 0,
        "tool_use"@.len() > 0,
        "tool_result"@.len() > 0,
{
    reveal_strlit("text");
    reveal_strlit("thinking");
    reveal_strlit("tool_use");
    reveal_strlit("tool_result");
    assert("tool_use"@.len() != "tool_result"@.len());
    assert("thinking"@[1] != "tool_use"@[1]);
}

/// A line of the user, of the assistant or of the system in which a block has something to
/// show is a turn that shows it: a text, a thought, a tool with its arguments, or what a
/// tool gave back, cut to 2000 characters. A single one of these is enough.
pub proof fn law_blocks_make_turns(l: LineView, blocks: Seq<JsonTree>, b: int, t: Seq<char>)
    requires
        l.kind == Some("user"@) || l.kind == Some("assistant"@) || l.kind == Some("system"@),
        content_of(l) == Some(JsonTree::Array(blocks)),
        0 <= b < blocks.len(),
    ensures
        is_of(blocks[b], "text"@) && member(blocks[b], "text"@) == Some(JsonTree::Text(t)) ==> turn_of(
            l,
        ) is Some && turn_of(l).unwrap().texts.contains(t),
        is_of(blocks[b], "thinking"@) && member(blocks[b], "thinking"@) == Some(JsonTree::Text(t))
            ==> turn_of(l) is Some && turn_of(l).unwrap().thinking.contains(t),
        is_of(blocks[b], "tool_use"@) ==> turn_of(l) is Some && turn_of(
            l,
        ).unwrap().tool_uses.contains(
            (
                match member(blocks[b], "name"@) {
                    Some(JsonTree::Text(name)) => name,
                    _ => "(tool)"@,
                },
                match member_text(blocks[b], "input"@) {
                    Some(args) => args,
                    None => Seq::empty(),
                },
            ),
        ),
        is_of(blocks[b], "tool_result"@) && member(blocks[b], "content"@) == Some(
            JsonTree::Text(t),
        ) && trimmed(t).len() > 0 ==> turn_of(l) is Some && turn_of(l).unwrap().tool_results.contains(
            if t.len() <= 2000 {
                t
            } else {
                t.take(2000).push('…')
            },
        ),
{
    lemma_block_types();
    reveal_strlit("user");
    reveal_strlit("assistant");
    reveal_strlit("system");
    let role = role_of(l.kind).unwrap();
    let turn = full_turn(role, l);
    let block = blocks[b];
    if is_of(block, "text"@) && member(block, "text"@) == Some(JsonTree::Text(t)) {
        law_what_is_gathered(blocks, |x: JsonTree| block_text(x), t);
        assert(block_text(blocks[b]) == Some(t));
        lemma_contained(Seq::empty(), gather(blocks, |x: JsonTree| block_text(x)), t);
    }
    if is_of(block, "thinking"@) && member(block, "thinking"@) == Some(JsonTree::Text(t)) {
        law_what_is_gathered(blocks, |x: JsonTree| block_thinking(x), t);
        assert(block_thinking(blocks[b]) == Some(t));
        lemma_contained(Seq::empty(), gather(blocks, |x: JsonTree| block_thinking(x)), t);
    }
    if is_of(block, "tool_use"@) {
        let call = block_tool_use(block).unwrap();
        law_what_is_gathered(blocks, |x: JsonTree| block_tool_use(x), call);
        assert(block_tool_use(blocks[b]) == Some(call));
        lemma_contained(Seq::empty(), gather(blocks, |x: JsonTree| block_tool_use(x)), call);
    }
    if is_of(block, "tool_result"@) && member(block, "content"@) == Some(JsonTree::Text(t))
        && trimmed(t).len() > 0 {
        let shown = block_result(block).unwrap();
        law_what_is_gathered(blocks, |x: JsonTree| block_result(x), shown);
        assert(block_result(blocks[b]) == Some(shown));
        lemma_contained(Seq::empty(), gather(blocks, |x: JsonTree| block_result(x)), shown);
    }
}

proof fn lemma_contained<T>(a: Seq<T>, b: Seq<T>, x: T)
    requires
        b.contains(x),
    ensures
        (a + b).contains(x),
        (a + b).len() > 0,
{
    let i = choose|i: int| 0 <= i < b.len() && b[i] == x;
    assert((a + b)[a.len() + i] == x);
}

/// A line whose content is a plain text that is not blank is a turn with that text, and
/// nothing else.
pub proof fn law_plain_texts_make_turns(l: LineView, t: Seq<char>)
    requires
        l.kind == Some("user"@) || l.kind == Some("assistant"@) || l.kind == Some("system"@),
        content_of(l) == Some(JsonTree::Text(t)),
    ensures
        trimmed(t).len() > 0 ==> turn_of(l) is Some && turn_of(l).unwrap().texts == seq![t]
            && turn_of(l).unwrap().tool_uses.len() == 0 && turn_of(l).unwrap().tool_results.len()
            == 0 && turn_of(l).unwrap().thinking.len() == 0,
        trimmed(t).len() == 0 ==> turn_of(l) is None,
{
    let role = role_of(l.kind).unwrap();
    let turn = full_turn(role, l);
    assert(blocks_of(JsonTree::Text(t)) =~= Seq::empty());
    if trimmed(t).len() > 0 {
        assert(turn.texts =~= seq![t]);
    }
}

/// A turn is by who the line's type says, at the second of the line's moment, and lines of
/// other types are no turns.
pub proof fn law_turns_are_by_their_speakers(l: LineView)
    ensures
        turn_of(l) matches Some(turn) ==> {
            &&& turn.role == TurnRole::User <==> l.kind == Some("user"@)
            &&& turn.role == TurnRole::Assistant <==> l.kind == Some("assistant"@)
            &&& turn.role == TurnRole::System <==> l.kind == Some("system"@)
            &&& turn.timestamp == (match l.timestamp {
                Some(text) => match rfc3339_instant(text) {
                    Some(t) => Some(t.0),
                    None => None,
                },
                None => None,
            })
        },
        l.kind != Some("user"@) && l.kind != Some("assistant"@) && l.kind != Some("system"@)
            ==> turn_of(l) is None,
{
    reveal_strlit("user");
    reveal_strlit("assistant");
    reveal_strlit("system");
    assert("user"@.len() != "assistant"@.len());
    assert("system"@.len() != "assistant"@.len());
    assert("user"@.len() != "system"@.len());
}

/// A line without any content, or with blocks of which none has anything to show, is no
/// turn.
pub proof fn law_nothing_to_show_is_no_turn(l: LineView)
    requires
        content_of(l) is None || (content_of(l).unwrap() is Array && forall|i: int|
            0 <= i < content_of(l).unwrap()->Array_0.len() ==> {
                let block = #[trigger] content_of(l).unwrap()->Array_0[i];
                &&& !is_of(block, "text"@)
                &&& !is_of(block, "thinking"@)
                &&& !is_of(block, "tool_use"@)
                &&& !is_of(block, "tool_result"@)
            }),
    ensures
        turn_of(l) is None,
{
    lemma_block_types();
    if content_of(l) is Some && role_of(l.kind) is Some {
        let blocks = content_of(l).unwrap()->Array_0;
        let turn = full_turn(role_of(l.kind).unwrap(), l);
        lemma_none_gathered(blocks, |x: JsonTree| block_text(x));
        lemma_none_gathered(blocks, |x: JsonTree| block_thinking(x));
        lemma_none_gathered(blocks, |x: JsonTree| block_tool_use(x));
        lemma_none_gathered(blocks, |x: JsonTree| block_result(x));
        assert(turn.texts.len() == 0);
    }
}

proof fn lemma_none_gathered<B>(blocks: Seq<JsonTree>, f: spec_fn(JsonTree) -> Option<B>)
    requires
        forall|i: int| 0 <= i < blocks.len() ==> f(#[trigger] blocks[i]) is None,
    ensures
        gather(blocks, f).len() == 0,
{
    law_two_are_gathered(blocks, f);
}

/// The result of a tool is shown where it is a text that is not blank, and as it is up to
/// 2000 characters.
pub proof fn law_results_are_texts(block: JsonTree, t: Seq<char>)
    requires
        is_of(block, "tool_result"@),
    ensures
        member(block, "content"@) == Some(JsonTree::Text(t)) && trimmed(t).len() == 0
            ==> block_result(block) is None,
        member(block, "content"@) == Some(JsonTree::Text(t)) && trimmed(t).len() > 0 && t.len()
            <= 2000 ==> block_result(block) == Some(t),
        member(block, "content"@) == Some(JsonTree::Text(t)) && trimmed(t).len() > 0 && t.len()
            > 2000 ==> block_result(block) == Some(t.take(2000).push('…')),
        member(block, "content"@) is None ==> block_result(block) is None,
{
    lemma_block_types();
    assert(trimmed(Seq::<char>::empty()) =~= Seq::empty());
}

/// A result that comes in parts is told by those with a text, each on lines of its own.
pub proof fn law_results_are_told_in_parts(parts: Seq<JsonTree>, part: JsonTree, t: Seq<char>)
    ensures
        ({
            let before = result_text(Some(JsonTree::Array(parts)));
            let after = result_text(Some(JsonTree::Array(parts.push(part))));
            let first = forall|i: int|
                0 <= i < parts.len() ==> !(member(#[trigger] parts[i], "text"@) matches Some(
                    JsonTree::Text(_),
                ));
            &&& !(member(part, "text"@) matches Some(JsonTree::Text(_))) ==> after == before
            &&& member(part, "text"@) == Some(JsonTree::Text(t)) && first ==> after == t
            &&& member(part, "text"@) == Some(JsonTree::Text(t)) && !first ==> after == before
                + "\n"@ + t
        }),
        result_text(Some(JsonTree::Array(Seq::empty()))).len() == 0,
{
    let f = |b: JsonTree| text_in(member(b, "text"@));
    law_two_are_gathered(parts, f);
    let all = gather(parts, f);
    if member(part, "text"@) == Some(JsonTree::Text(t)) {
        assert(gather(parts.push(part), f) == all.push(t));
        assert(all.push(t).drop_last() =~= all);
        if all.len() >= 1 {
            let i = choose|i: int| 0 <= i < parts.len() && f(#[trigger] parts[i]) is Some;
            assert(member(parts[i], "text"@) matches Some(JsonTree::Text(_)));
        } else {
            assert forall|i: int| 0 <= i < parts.len() implies !(member(
                #[trigger] parts[i],
                "text"@,
            ) matches Some(JsonTree::Text(_))) by {
                assert(!(f(parts[i]) is Some));
            }
        }
    }
}

/// Blocks are shown in their order: what the first of them add to a turn comes before what
/// the rest add.
pub proof fn law_blocks_come_in_order(turn: TurnView, x: Seq<JsonTree>, y: Seq<JsonTree>)
    ensures
        with_content(turn, JsonTree::Array(x + y)) == with_content(
            with_content(turn, JsonTree::Array(x)),
            JsonTree::Array(y),
        ),
    decreases y.len(),
{
    if y.len() == 0 {
        assert(x + y =~= x);
        let once = with_content(turn, JsonTree::Array(x));
        assert(with_content(once, JsonTree::Array(y)) =~= once);
    } else {
        let rest = y.drop_last();
        law_blocks_come_in_order(turn, x, rest);
        assert(x + y =~= (x + rest).push(y.last()));
        assert(y =~= rest.push(y.last()));
        lemma_block_step(turn, x + rest, y.last());
        lemma_block_step(with_content(turn, JsonTree::Array(x)), rest, y.last());
        assert(with_content(turn, JsonTree::Array(x + y)) =~= with_content(
            with_content(turn, JsonTree::Array(x)),
            JsonTree::Array(y),
        ));
    }
}

} // verus!
