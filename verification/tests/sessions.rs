use repo_recall::json::{parse_json, Json};
use repo_recall::mentions::mentions_in_text;
use repo_recall::sessions::{
    extract_text, parse_session_lines, truncate, RawLine, RawMessage, SessionScan,
};
use repo_recall::transcript::{parse_transcript_lines, turn_of_line, TurnRole};

fn line(kind: &str) -> RawLine {
    RawLine {
        kind: Some(kind.to_string()),
        session_id: None,
        timestamp: None,
        cwd: None,
        content: None,
        message: None,
    }
}

fn json(text: &str) -> Option<Json> {
    parse_json(text)
}

fn message(content: Option<&str>, usage: Option<&str>) -> Option<RawMessage> {
    Some(RawMessage {
        content: content.and_then(parse_json),
        usage: usage.and_then(parse_json),
    })
}

#[test]
fn a_session_is_read_off_its_lines() {
    let mut queued = line("queue-operation");
    queued.content = json("\" queued prompt \"");
    queued.timestamp = Some("2025-01-01T00:00:05.250Z".into());
    let mut user = line("user");
    user.session_id = Some("s-1".into());
    user.cwd = Some(String::new());
    user.timestamp = Some("2025-01-01T00:00:00.500Z".into());
    user.message = message(Some("[{\"type\":\"image\"},{\"type\":\"text\",\"text\":\"  hello \"}]"), None);
    let mut assistant = line("assistant");
    assistant.session_id = Some("s-2".into());
    assistant.cwd = Some("/work/a".into());
    assistant.timestamp = Some("2025-01-01T01:00:09+01:00".into());
    assistant.message = message(
        None,
        Some("{\"input_tokens\":3,\"output_tokens\":4,\"cache_read_input_tokens\":5,\"cache_creation_input_tokens\":6}"),
    );
    let mut again = line("assistant");
    again.message = message(None, Some("{\"input_tokens\":10,\"output_tokens\":\"x\"}"));
    again.cwd = Some("/work/b".into());
    let lines = vec![queued, user, assistant, again];
    let r = parse_session_lines(&lines, Some("stem".into()), "/f.jsonl".into()).unwrap();
    assert_eq!(r.session_uuid, "s-1");
    assert_eq!(r.cwd.as_deref(), Some("/work/a"));
    assert_eq!(r.started_at, Some(1735689600));
    assert_eq!(r.ended_at, Some(1735689609));
    assert_eq!(r.duration_ms, Some(8_500));
    assert_eq!(r.message_count, 3);
    assert_eq!(r.summary.as_deref(), Some("hello"));
    assert_eq!(r.source_file, "/f.jsonl");
    assert_eq!(r.input_tokens, 13);
    assert_eq!(r.output_tokens, 4);
    assert_eq!(r.cache_read_tokens, 5);
    assert_eq!(r.cache_creation_tokens, 6);
}

#[test]
fn a_queued_prompt_is_the_last_resort_for_a_summary() {
    let mut queued = line("queue-operation");
    queued.content = json("\"queued\"");
    let mut blank = line("user");
    blank.content = json("\"  \"");
    let r = parse_session_lines(&vec![queued, blank], Some("stem".into()), "f".into()).unwrap();
    assert_eq!(r.summary.as_deref(), Some("queued"));
    assert_eq!(r.session_uuid, "stem");
    assert_eq!(r.started_at, None);
    assert_eq!(r.duration_ms, None);
}

#[test]
fn one_timestamp_makes_no_span() {
    let mut only = line("user");
    only.timestamp = Some("2025-01-01T00:00:00Z".into());
    let mut bad = line("user");
    bad.timestamp = Some("yesterday".into());
    let r = parse_session_lines(&vec![only, bad], Some("s".into()), "f".into()).unwrap();
    assert_eq!(r.started_at, Some(1735689600));
    assert_eq!(r.ended_at, Some(1735689600));
    assert_eq!(r.duration_ms, None);
}

#[test]
fn files_without_a_session_give_none() {
    assert!(parse_session_lines(&Vec::new(), Some("stem".into()), "f".into()).is_none());
    assert!(parse_session_lines(&vec![line("user")], None, "f".into()).is_none());
}

#[test]
fn summaries_are_cut_at_two_hundred_characters() {
    let mut user = line("user");
    user.content = Some(Json::Text("é".repeat(250)));
    let r = parse_session_lines(&vec![user], Some("s".into()), "f".into()).unwrap();
    let s = r.summary.unwrap();
    assert_eq!(s.chars().count(), 201);
    assert!(s.ends_with('…'));
    assert_eq!(truncate("abc", 3), "abc");
    assert_eq!(truncate("abcd", 3), "abc…");
}

#[test]
fn counts_that_do_not_fit_are_refused() {
    let mut scan = SessionScan::new();
    let mut big = line("assistant");
    big.message = message(None, Some("{\"input_tokens\":9223372036854775807}"));
    assert!(scan.accepts(&big));
    scan.add(&big);
    assert!(!scan.accepts(&big));
    assert!(scan.accepts(&line("assistant")));
}

#[test]
fn text_is_taken_from_strings_and_text_blocks() {
    assert_eq!(extract_text(None), None);
    assert_eq!(extract_text(json("\"x\"").as_ref()).as_deref(), Some("x"));
    assert_eq!(extract_text(json("[1,{\"type\":\"text\"},{\"type\":\"text\",\"text\":\"y\"}]").as_ref()).as_deref(), Some("y"));
    assert_eq!(extract_text(json("[{\"text\":\"y\"}]").as_ref()), None);
    assert_eq!(extract_text(json("{\"text\":\"y\"}").as_ref()), None);
}

#[test]
fn turns_hold_what_their_blocks_say() {
    let mut l = line("assistant");
    l.timestamp = Some("2025-01-01T00:00:00Z".into());
    l.message = message(
        Some("[{\"type\":\"text\",\"text\":\"hi\"},{\"type\":\"thinking\",\"thinking\":\"hm\"},{\"type\":\"tool_use\",\"name\":\"Bash\",\"input\":{\"b\":[1,2.5,null,true],\"a\":\"q\\\"\"}},{\"type\":\"tool_use\"},{\"type\":\"tool_result\",\"content\":[{\"text\":\"one\"},{},{\"text\":\"two\"}]},{\"type\":\"tool_result\",\"content\":\"  \"},{\"type\":\"other\"},7]"),
        None,
    );
    let t = turn_of_line(&l).unwrap();
    assert_eq!(t.role, TurnRole::Assistant);
    assert_eq!(t.timestamp, Some(1735689600));
    assert_eq!(t.texts, vec!["hi"]);
    assert_eq!(t.thinking, vec!["hm"]);
    assert_eq!(t.tool_uses[0].0, "Bash");
    let value: serde_json::Value = serde_json::from_str("{\"b\":[1,2.5,null,true],\"a\":\"q\\\"\"}").unwrap();
    assert_eq!(t.tool_uses[0].1, value.to_string());
    assert_eq!(t.tool_uses[1], ("(tool)".to_string(), String::new()));
    assert_eq!(t.tool_results, vec!["one\ntwo"]);
}

#[test]
fn turns_without_anything_visible_are_left_out() {
    let mut blank = line("user");
    blank.content = json("\" \"");
    let mut said = line("user");
    said.content = json("\"said\"");
    let mut system = line("system");
    system.content = json("\"note\"");
    let mut other = line("summary");
    other.content = json("\"no\"");
    let turns = parse_transcript_lines(&vec![blank, said, system, other]);
    assert_eq!(turns.len(), 2);
    assert_eq!(turns[0].role, TurnRole::User);
    assert_eq!(turns[0].texts, vec!["said"]);
    assert_eq!(turns[1].role, TurnRole::System);
}

#[test]
fn tool_results_are_cut_at_two_thousand_characters() {
    let mut l = line("user");
    l.content = Some(Json::Array(vec![Json::Object(vec![
        ("type".into(), Json::Text("tool_result".into()), "\"tool_result\"".into()),
        ("content".into(), Json::Text("x".repeat(2500)), format!("\"{}\"", "x".repeat(2500))),
    ])]));
    let t = turn_of_line(&l).unwrap();
    assert_eq!(t.tool_results[0].chars().count(), 2001);
}

#[test]
fn documents_are_read_and_written_as_serde_json_does() {
    for text in [
        "null",
        "[1,-2,3.5,1e300,18446744073709551615,9223372036854775807]",
        "{\"z\":1,\"a\":{\"k\":[]},\"m\":\"line\\nbreak \\u00e9 \\\"q\\\"\"}",
        "\"\"",
        "{}",
    ] {
        let doc = parse_json(&format!("{{ \"b\" : {text}, \"a\" : 0 }}")).unwrap();
        let value: serde_json::Value = serde_json::from_str(text).unwrap();
        assert_eq!(doc.compact_at("b"), Some(&serde_json::to_string(&value).unwrap()));
        assert_eq!(doc.compact_at("c"), None);
    }
    let spaced = parse_json("{\"in\": { \"z\" : [ 1 , true ] , \"a\" : \"\\u00e9\\n\" }}").unwrap();
    assert_eq!(
        spaced.compact_at("in").map(String::as_str),
        Some("{\"a\":\"é\\n\",\"z\":[1,true]}"),
    );
    for bad in ["", "{", "[1,]", "nul", "1 2", "'x'"] {
        assert!(parse_json(bad).is_none());
    }
}

#[test]
fn documents_are_looked_into() {
    let doc = parse_json("{\"n\":7,\"u\":18446744073709551615,\"t\":true,\"s\":\"x\",\"l\":[1]}").unwrap();
    assert_eq!(doc.int_at("n"), Some(7));
    assert_eq!(doc.int_at("u"), None);
    assert_eq!(doc.int_at("s"), None);
    assert!(doc.true_at("t"));
    assert!(!doc.true_at("n"));
    assert_eq!(doc.text_at("s").map(|s| s.as_str()), Some("x"));
    assert_eq!(doc.items_at("l").map(|l| l.len()), Some(1));
    assert!(doc.get("missing").is_none());
    assert!(doc.items_at("l").unwrap()[0].get("x").is_none());
}

#[test]
fn mentions_are_bare_words() {
    let needles = vec![
        (1, "backend".to_string()),
        (2, "io".to_string()),
        (3, "repo-recall".to_string()),
        (4, "Website".to_string()),
    ];
    let hits = |text: &str| mentions_in_text(text, &needles);
    assert_eq!(hits("the backend, and io"), vec![1]);
    assert_eq!(hits("backends bugbackend"), Vec::<i64>::new());
    assert_eq!(hits("BACKEND"), vec![1]);
    assert_eq!(hits("see /x/repo-recall/src and the WEBSITE"), vec![3, 4]);
    assert_eq!(hits("backendsbackend backend"), vec![1]);
    assert_eq!(hits("xbackend-backend"), vec![1]);
    assert_eq!(hits("_backend_"), vec![1]);
    assert_eq!(hits("ébackendé"), vec![1]);
    assert_eq!(hits(""), Vec::<i64>::new());
}

#[test]
fn overlapping_words_are_found() {
    let needles = vec![(1, "a-a-a".to_string())];
    assert_eq!(mentions_in_text("xa-a-a-a", &needles), vec![1]);
}

#[test]
fn short_names_are_noise_however_many_bytes_they_take() {
    let needles = vec![(1, "éé".to_string()), (2, "日".to_string()), (3, "ééé".to_string())];
    assert_eq!(mentions_in_text("éé, 日, ééé", &needles), vec![3]);
}

#[test]
fn sessions_end_after_their_start() {
    let stamps = ["2025-03-01T10:00:00Z", "2025-03-01T09:00:00Z", "2025-03-01T11:30:00Z"];
    let lines: Vec<RawLine> = stamps
        .iter()
        .map(|t| {
            let mut l = line("user");
            l.timestamp = Some(t.to_string());
            l
        })
        .collect();
    let r = parse_session_lines(&lines, Some("s".into()), "f".into()).unwrap();
    assert!(r.started_at.unwrap() <= r.ended_at.unwrap());
    assert_eq!(r.duration_ms, Some(9_000_000));
}
