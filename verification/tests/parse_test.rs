use sonar::clock::Timestamp;
use sonar::json::Json;
use sonar::parse::{event_from_json, extract_message_content, extract_text, parse_line, project_from_path};

#[test]
fn parses_user_message() {
    let line = r#"{"type":"user","sessionId":"sess-1","timestamp":"2026-05-10T14:23:00Z","message":{"role":"user","content":"add the migration"},"cwd":"/Users/u/Desktop/demo","gitBranch":"main"}"#;
    let path = "/x/-Users-u-Desktop-demo/abc.jsonl";
    let ev = parse_line(line, path, 0).unwrap().unwrap();
    assert_eq!(ev.session_id, "sess-1");
    assert_eq!(ev.event_role, "user");
    assert!(ev.text.contains("migration"));
    assert_eq!(ev.git_branch.as_deref(), Some("main"));
    assert!(ev.timestamp.is_some());
    assert_eq!(ev.project, "Users/u/Desktop/demo");
}

#[test]
fn parses_assistant_message_with_content_blocks() {
    let line = r#"{"type":"assistant","sessionId":"sess-2","timestamp":"2026-05-10T14:24:00Z","message":{"role":"assistant","content":[{"type":"text","text":"Looking at the file..."},{"type":"thinking","thinking":"hmm"}]}}"#;
    let path = "/x/-Users-u-Desktop-demo/abc.jsonl";
    let ev = parse_line(line, path, 1).unwrap().unwrap();
    assert_eq!(ev.event_role, "assistant");
    assert!(ev.text.contains("Looking"));
    assert!(ev.text.contains("hmm"));
}

#[test]
fn parses_attachment_with_hook_content() {
    let line = r#"{"type":"attachment","sessionId":"sess-3","timestamp":"2026-05-10T14:25:00Z","attachment":{"type":"hook_success","content":"OK","stdout":"OK\n","stderr":"","command":"echo hi"}}"#;
    let path = "/x/-Users-u-Desktop-demo/abc.jsonl";
    let ev = parse_line(line, path, 2).unwrap().unwrap();
    assert_eq!(ev.event_role, "attachment");
    assert!(ev.text.contains("OK"));
}

#[test]
fn empty_content_returns_none() {
    let line = r#"{"type":"last-prompt","sessionId":"sess-4","leafUuid":"abc"}"#;
    let path = "/x/-Users-u-Desktop-demo/abc.jsonl";
    let ev = parse_line(line, path, 3).unwrap();
    assert!(ev.is_none(), "no searchable text should return None");
}

#[test]
fn malformed_json_errors() {
    let line = "not json at all";
    let path = "/x/-Users-u-Desktop-demo/abc.jsonl";
    let err = parse_line(line, path, 4);
    assert!(err.is_err());
}

#[test]
fn project_label_decodes_path() {
    let path = "/Users/u/.agent/projects/-Users-u-Desktop-myproject/abc.jsonl";
    assert_eq!(project_from_path(path), "Users/u/Desktop/myproject");
}

#[test]
fn every_part_of_a_record_is_taken_over() {
    let line = r#"{"type":"user","sessionId":"s","timestamp":"2026-05-10T16:23:01.5+02:00","message":{"content":"hi"},"cwd":"/w","gitBranch":"b"}"#;
    let ev = parse_line(line, "/p/-a-b/f.jsonl", 17).unwrap().unwrap();
    assert_eq!(ev.session_id, "s");
    assert_eq!(ev.project, "a/b");
    assert_eq!(ev.event_role, "user");
    assert_eq!(ev.timestamp, Some(Timestamp { secs: 1_778_422_981, nanos: 500_000_000 }));
    assert_eq!(ev.cwd.as_deref(), Some("/w"));
    assert_eq!(ev.git_branch.as_deref(), Some("b"));
    assert_eq!(ev.file_path, "/p/-a-b/f.jsonl");
    assert_eq!(ev.event_index, 17);
    assert_eq!(ev.text, "hi");
}

#[test]
fn missing_parts_have_defaults() {
    let ev = parse_line(r#"{"type":"user","message":{"content":"hi"},"timestamp":"yesterday"}"#, "f.jsonl", 0)
        .unwrap()
        .unwrap();
    assert_eq!(ev.session_id, "");
    assert_eq!(ev.project, "");
    assert_eq!(ev.timestamp, None);
    assert_eq!(ev.cwd, None);
    assert_eq!(ev.git_branch, None);
}

#[test]
fn content_blocks_are_joined_by_lines() {
    let line = r#"{"type":"assistant","message":{"content":["plain",{"text":"t","thinking":"h"},{"name":"Bash","input":{"cmd":"ls","n":[1,2]}},{"name":"Quiet"},{"other":1},7]}}"#;
    let ev = parse_line(line, "f", 0).unwrap().unwrap();
    assert_eq!(
        ev.text,
        "plain\nt\nh\n[tool: Bash]\n{\"cmd\":\"ls\",\"n\":[1,2]}\n[tool: Quiet]"
    );
}

#[test]
fn attachment_leaves_out_empty_output() {
    let line = r#"{"type":"attachment","attachment":{"content":"c","stdout":"","stderr":"e"}}"#;
    assert_eq!(parse_line(line, "f", 0).unwrap().unwrap().text, "c\ne");
    let line = r#"{"type":"attachment","attachment":{"content":"","stdout":"o"}}"#;
    assert_eq!(parse_line(line, "f", 0).unwrap().unwrap().text, "\no");
}

#[test]
fn blank_text_is_no_record() {
    assert!(parse_line(r#"{"type":"user","message":{"content":" \n\t "}}"#, "f", 0).unwrap().is_none());
    assert!(parse_line(r#"{"type":"user","message":{"content":5}}"#, "f", 0).unwrap().is_none());
    assert!(parse_line(r#"{"type":"user"}"#, "f", 0).unwrap().is_none());
    assert!(parse_line("[]", "f", 0).unwrap().is_none());
    assert!(parse_line("null", "f", 0).unwrap().is_none());
}

#[test]
fn what_is_wrong_with_a_line_is_told() {
    let e = parse_line("{", "f", 0).unwrap_err();
    assert_eq!(e.0, "EOF while parsing an object at line 1 column 1");
}

#[test]
fn record_from_a_document() {
    let doc = Json::Object(vec![
        ("type".to_string(), Json::Text("user".to_string())),
        (
            "message".to_string(),
            Json::Object(vec![("content".to_string(), Json::Text("hello".to_string()))]),
        ),
    ]);
    let ev = event_from_json(&doc, "/a/-x/f.jsonl", 2).unwrap();
    assert_eq!(ev.text, "hello");
    assert_eq!(ev.project, "x");
    assert_eq!(extract_text(&doc, "assistant"), "hello");
    assert_eq!(extract_text(&doc, "summary"), "");
    assert_eq!(extract_message_content(None), "");
}

#[test]
fn later_member_of_one_name_counts() {
    let ev = parse_line(r#"{"type":"summary","type":"user","message":{"content":"a","content":"b"}}"#, "f", 0)
        .unwrap()
        .unwrap();
    assert_eq!(ev.event_role, "user");
    assert_eq!(ev.text, "b");
}

#[test]
fn project_labels_at_the_edges() {
    assert_eq!(project_from_path("abc.jsonl"), "");
    assert_eq!(project_from_path("/abc.jsonl"), "");
    assert_eq!(project_from_path("/a/../abc.jsonl"), "");
    assert_eq!(project_from_path("--a--b/abc.jsonl"), "a//b");
    assert_eq!(project_from_path("x/./-y/abc.jsonl"), "y");
    assert_eq!(project_from_path("/x/-y//abc.jsonl/"), "y");
}
