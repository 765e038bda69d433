use sonar::daemon::{
    bootstrap_files, bootstrap_totals, default_transcripts_root, file_action, in_named_project, index_file,
    index_line, is_interesting, is_transcript, transcripts_root_under, ChangeKind, Debouncer, FileAction, Next,
    WatchEvent, DEBOUNCE_NANOS,
};

#[test]
fn transcripts_by_extension() {
    assert!(is_transcript("/a/b.jsonl"));
    assert!(is_transcript("x.y.jsonl"));
    assert!(!is_transcript("/a/b.JSONL"));
    assert!(!is_transcript("/a/b.json"));
    assert!(!is_transcript(".jsonl"));
    assert!(!is_transcript("/a.jsonl/b"));
}

#[test]
fn lines_without_a_record_still_count() {
    let lines: Vec<Option<String>> = vec![
        Some(r#"{"type":"user","message":{"content":"zero"}}"#.to_string()),
        Some("   ".to_string()),
        None,
        Some("{broken".to_string()),
        Some(r#"{"type":"summary"}"#.to_string()),
        Some(r#"{"type":"user","message":{"content":"five"}}"#.to_string()),
    ];
    let events = index_file(&lines, "/p/-x/f.jsonl");
    let seen: Vec<(u64, &str)> = events.iter().map(|e| (e.event_index, e.text.as_str())).collect();
    assert_eq!(seen, vec![(0, "zero"), (5, "five")]);
    assert!(events.iter().all(|e| e.file_path == "/p/-x/f.jsonl" && e.project == "x"));
    assert!(index_line(None, "f", 0).is_none());
    assert_eq!(index_line(lines[5].as_deref(), "f", 9).unwrap().event_index, 9);
}

#[test]
fn bootstrap_takes_transcript_files() {
    let entries = vec![
        ("/r".to_string(), false),
        ("/r/a.jsonl".to_string(), true),
        ("/r/d.jsonl".to_string(), false),
        ("/r/b.txt".to_string(), true),
        ("/r/s/c.jsonl".to_string(), true),
    ];
    assert_eq!(bootstrap_files(&entries), vec!["/r/a.jsonl", "/r/s/c.jsonl"]);
}

fn changed(paths: &[&str]) -> WatchEvent {
    WatchEvent::Changed(ChangeKind::Modify, paths.iter().map(|p| p.to_string()).collect())
}

#[test]
fn changes_coalesce() {
    let mut d = Debouncer::new();
    assert_eq!(d.on_event(&changed(&["/a.jsonl", "/b.txt"]), 0), Next::Drain);
    assert_eq!(d.on_event(&changed(&["/a.jsonl"]), 500_000_000), Next::Drain);
    assert!(d.drain(DEBOUNCE_NANOS).is_empty());
    assert!(d.drain(500_000_000 + DEBOUNCE_NANOS - 1).is_empty());
    assert_eq!(d.drain(500_000_000 + DEBOUNCE_NANOS), vec!["/a.jsonl"]);
    assert!(d.drain(u64::MAX).is_empty());
}

#[test]
fn files_become_due_on_their_own() {
    let mut d = Debouncer::new();
    d.on_event(&changed(&["/a.jsonl"]), 0);
    d.on_event(&changed(&["/b.jsonl", "/c.jsonl"]), 100);
    assert_eq!(d.drain(DEBOUNCE_NANOS), vec!["/a.jsonl"]);
    let mut rest = d.drain(DEBOUNCE_NANOS + 100);
    rest.sort();
    assert_eq!(rest, vec!["/b.jsonl", "/c.jsonl"]);
}

#[test]
fn what_follows_an_event() {
    let mut d = Debouncer::new();
    let other = WatchEvent::Changed(ChangeKind::Other, vec!["/a.jsonl".to_string()]);
    assert_eq!(d.on_event(&other, 0), Next::Wait);
    assert_eq!(d.on_event(&WatchEvent::Failed, 0), Next::Drain);
    assert_eq!(d.on_event(&WatchEvent::Quiet, 0), Next::Drain);
    assert_eq!(d.on_event(&WatchEvent::Disconnected, 0), Next::Stop);
    assert!(d.drain(u64::MAX).is_empty());
    assert!(is_interesting(ChangeKind::Create) && is_interesting(ChangeKind::Remove));
    assert!(!is_interesting(ChangeKind::Other));
    assert_eq!(file_action(true), FileAction::Reindex);
    assert_eq!(file_action(false), FileAction::Forget);
}

#[test]
fn where_transcripts_are() {
    assert_eq!(
        transcripts_root_under("agent", &Some("/h".to_string())).unwrap(),
        "/h/.agent/projects"
    );
    assert!(transcripts_root_under("agent", &None).is_err());
    if let Ok(p) = default_transcripts_root("agent") {
        assert!(p.ends_with("/.agent/projects"));
    }
}

#[test]
fn a_bootstrap_is_counted() {
    assert_eq!(bootstrap_totals(&vec![Some(3), Some(0), Some(4)]), Some((3, 7)));
    assert_eq!(bootstrap_totals(&vec![]), Some((0, 0)));
    assert_eq!(bootstrap_totals(&vec![Some(3), None]), None);
}

#[test]
fn a_project_without_a_name_is_left_out() {
    let lines = vec![Some(
        r#"{"type":"user","sessionId":"s","message":{"content":"hello"}}"#.to_string(),
    )];
    let ev = index_file(&lines, "/x/-Users-u-demo/a.jsonl").pop().unwrap();
    assert_eq!(in_named_project(ev.clone(), true), ev);
    let bare = in_named_project(ev.clone(), false);
    assert_eq!(bare.project, "");
    assert_eq!((bare.text, bare.file_path), (ev.text, ev.file_path));
}
