use sonar::clock::{Timestamp, MAX_SECS, MIN_SECS};
use sonar::index::{
    build_schema, clamp_limit, collect_hits, default_index_path, event_document, file_term,
    fits_index, index_path_under, parse_since, parse_since_at, relative_since, search_query,
    search_query_in_role, Fields, SearchArgs, SearchError, SearchHit, SinceError,
};
use sonar::parse::{parse_line, IndexableEvent};
use sonar::wording::{is_too_deep, MAX_NEGATIONS, MAX_NESTING};
use tantivy::collector::TopDocs;
use tantivy::schema::document::Value;
use tantivy::schema::Field;
use tantivy::{Index, IndexWriter, TantivyDocument};

fn event(text: &str, path: &str, n: u64, at: Option<Timestamp>) -> IndexableEvent {
    IndexableEvent {
        session_id: "sess".to_string(),
        project: "Users/u/demo".to_string(),
        event_role: "user".to_string(),
        timestamp: at,
        cwd: Some("/w".to_string()),
        git_branch: None,
        file_path: path.to_string(),
        event_index: n,
        text: text.to_string(),
    }
}

fn stamp(secs: i64) -> Timestamp {
    Timestamp { secs, nanos: 0 }
}

fn filled(events: &[IndexableEvent]) -> (Index, IndexWriter, Fields) {
    let (schema, fields) = build_schema();
    let index = Index::create_in_ram(schema);
    let mut writer: IndexWriter = index.writer(50_000_000).unwrap();
    for ev in events {
        assert!(fits_index(ev));
        writer.add_document(event_document(ev, &fields)).unwrap();
    }
    writer.commit().unwrap();
    (index, writer, fields)
}

fn search(index: &Index, fields: &Fields, args: &SearchArgs) -> Vec<SearchHit> {
    let plan = search_query(args).unwrap();
    let reader = index.reader().unwrap();
    let searcher = reader.searcher();
    let found =
        searcher.search(&plan.query, &TopDocs::with_limit(plan.limit).order_by_score()).unwrap();
    let docs: Vec<(u32, TantivyDocument)> = found
        .into_iter()
        .map(|(score, addr)| (score.to_bits(), searcher.doc(addr).unwrap()))
        .collect();
    collect_hits(&docs, fields, &args.query)
}

fn query(q: &str) -> SearchArgs {
    SearchArgs { query: q.to_string(), ..Default::default() }
}

#[test]
fn schema_has_its_fields_in_order() {
    let (schema, fields) = build_schema();
    let names: Vec<&str> = schema.fields().map(|(_, e)| e.name()).collect();
    assert_eq!(
        names,
        vec![
            "session_id", "project", "event_role", "timestamp", "cwd", "git_branch", "file_path",
            "event_index", "text"
        ]
    );
    assert_eq!(schema.get_field("text").unwrap().field_id(), fields.text);
    assert_eq!(schema.get_field("timestamp").unwrap().field_id(), fields.timestamp);
    assert!(schema.fields().all(|(_, e)| e.is_stored() && e.is_indexed()));
    assert!(schema.get_field_entry(Field::from_field_id(fields.event_index)).is_fast());
}

#[test]
fn documents_hold_what_records_hold() {
    let (_, fields) = build_schema();
    let ev = event("body", "/f.jsonl", 7, Some(Timestamp { secs: -1, nanos: 999_999_999 }));
    let doc = event_document(&ev, &fields);
    let first = |n: u32| doc.get_first(Field::from_field_id(n));
    assert_eq!(first(fields.session_id).unwrap().as_str(), Some("sess"));
    assert_eq!(first(fields.cwd).unwrap().as_str(), Some("/w"));
    assert!(first(fields.git_branch).is_none());
    assert_eq!(first(fields.event_index).unwrap().as_u64(), Some(7));
    assert_eq!(
        first(fields.timestamp).unwrap().as_datetime().unwrap().into_timestamp_nanos(),
        -1_000
    );
    assert_eq!(doc.len(), 8);
}

#[test]
fn hits_give_back_what_was_indexed() {
    let (index, _writer, fields) =
        filled(&[event("Add the alembic migration", "/a.jsonl", 3, Some(stamp(1_778_422_980)))]);
    let hits = search(&index, &fields, &query("migration"));
    assert_eq!(hits.len(), 1);
    let h = &hits[0];
    assert_eq!(h.session_id, "sess");
    assert_eq!(h.project, "Users/u/demo");
    assert_eq!(h.event_role, "user");
    assert_eq!(h.timestamp.as_deref(), Some("2026-05-10T14:23:00+00:00"));
    assert_eq!(h.file_path, "/a.jsonl");
    assert_eq!(h.event_index, 3);
    assert_eq!(h.snippet, "Add the alembic migration");
    assert!(f32::from_bits(h.score_bits) > 0.0);
    assert!(search(&index, &fields, &query("nothing")).is_empty());
}

#[test]
fn seconds_before_the_epoch_are_cut_off() {
    let (_, fields) = build_schema();
    let ev = event("t", "/a", 0, Some(Timestamp { secs: -2, nanos: 500_000_000 }));
    let doc = event_document(&ev, &fields);
    let hit = SearchHit::from_doc(&doc, &fields, 5, "t");
    assert_eq!(hit.timestamp.as_deref(), Some("1969-12-31T23:59:59+00:00"));
    assert_eq!(hit.score_bits, 5);
    let bare = SearchHit::from_doc(&TantivyDocument::default(), &fields, 0, "t");
    assert_eq!(bare.timestamp, None);
    assert_eq!(bare.session_id, "");
    assert_eq!(bare.event_index, 0);
}

#[test]
fn filters_narrow_a_search() {
    let mut other = event("common words", "/b.jsonl", 0, Some(stamp(2_000_000_000)));
    other.project = "other".to_string();
    let (index, _writer, fields) = filled(&[
        event("common words", "/a.jsonl", 0, Some(stamp(1_000_000_000))),
        other,
        event("common words", "/c.jsonl", 0, None),
    ]);
    assert_eq!(search(&index, &fields, &query("common")).len(), 3);
    let since = |t: i64| SearchArgs { since: Some(stamp(t)), ..query("common") };
    assert_eq!(search(&index, &fields, &since(1_000_000_000)).len(), 2);
    let late = search(&index, &fields, &since(1_000_000_001));
    assert_eq!(late.len(), 1);
    assert_eq!(late[0].file_path, "/b.jsonl");
    let args = SearchArgs { project: Some("other".to_string()), ..query("common") };
    assert_eq!(search(&index, &fields, &args).len(), 1);
    let args = SearchArgs { project: Some("oth".to_string()), ..query("common") };
    assert_eq!(search(&index, &fields, &args).len(), 0);
    let args = SearchArgs { limit: Some(2), ..query("common") };
    assert_eq!(search(&index, &fields, &args).len(), 2);
}

#[test]
fn roles_narrow_a_search() {
    let mut answer = event("common words", "/b.jsonl", 0, None);
    answer.event_role = "assistant".to_string();
    let (index, _writer, fields) = filled(&[event("common words", "/a.jsonl", 0, None), answer]);
    let plan = search_query_in_role(&query("common"), Some("assistant")).unwrap();
    let reader = index.reader().unwrap();
    let searcher = reader.searcher();
    let found =
        searcher.search(&plan.query, &TopDocs::with_limit(plan.limit).order_by_score()).unwrap();
    assert_eq!(found.len(), 1);
    let doc: TantivyDocument = searcher.doc(found[0].1).unwrap();
    assert_eq!(SearchHit::from_doc(&doc, &fields, 0, "x").event_role, "assistant");
}

#[test]
fn windows_move_with_the_time() {
    let later = Timestamp { secs: NOW.secs + 50, nanos: 7 };
    let (a, b) = (relative_since("3d", NOW).unwrap(), relative_since("3d", later).unwrap());
    assert_eq!(b.secs - a.secs, 50);
    assert_eq!(b.nanos, 7);
}

#[test]
fn reindexing_a_file_replaces_its_records() {
    let (index, mut writer, fields) = filled(&[
        event("stale alpha", "/a.jsonl", 0, None),
        event("kept alpha", "/b.jsonl", 0, None),
    ]);
    writer.delete_term(file_term(&fields, "/a.jsonl"));
    writer
        .add_document(event_document(&event("fresh alpha", "/a.jsonl", 0, None), &fields))
        .unwrap();
    writer.commit().unwrap();
    let hits = search(&index, &fields, &query("alpha"));
    assert_eq!(hits.len(), 2);
    assert!(search(&index, &fields, &query("stale")).is_empty());
    assert_eq!(search(&index, &fields, &query("fresh")).len(), 1);
    assert_eq!(search(&index, &fields, &query("kept")).len(), 1);
}

#[test]
fn limits_are_clamped() {
    assert_eq!(clamp_limit(None), 10);
    assert_eq!(clamp_limit(Some(0)), 1);
    assert_eq!(clamp_limit(Some(1)), 1);
    assert_eq!(clamp_limit(Some(42)), 42);
    assert_eq!(clamp_limit(Some(100)), 100);
    assert_eq!(clamp_limit(Some(101)), 100);
    assert_eq!(search_query(&query("x")).unwrap().limit, 10);
}

#[test]
fn bad_queries_are_told() {
    match search_query(&query("\"open")) {
        Err(e) => {
            assert_eq!(e.message(), "parsing query");
            assert!(matches!(e, SearchError::Query(_)));
        }
        Ok(_) => panic!("expected a query error"),
    }
    let far = SearchArgs { since: Some(stamp(MAX_SECS)), ..query("x") };
    match search_query(&far) {
        Err(e) => {
            assert_eq!(e.message(), "parsing date range");
            assert!(matches!(e, SearchError::DateRange(_)));
        }
        Ok(_) => panic!("expected a range error"),
    }
}

#[test]
fn dates_outside_the_index_are_left_out() {
    assert!(fits_index(&event("t", "/a", 0, None)));
    let (_, fields) = build_schema();
    let dated = |t: Timestamp| {
        let ev = event("t", "/a", 0, Some(t));
        assert!(fits_index(&ev));
        let doc = event_document(&ev, &fields);
        SearchHit::from_doc(&doc, &fields, 0, "t").timestamp.is_some()
    };
    assert!(dated(stamp(9_223_372_036)));
    assert!(!dated(stamp(9_223_372_037)));
    assert!(!dated(stamp(-9_223_372_037)));
    assert!(!dated(stamp(MIN_SECS - 1)));
    assert!(!dated(Timestamp { secs: 58, nanos: 1_500_000_000 }));
    assert!(dated(Timestamp { secs: 59, nanos: 1_500_000_000 }));
    let line = r#"{"type":"user","timestamp":"9999-01-01T00:00:00Z","message":{"content":"x"}}"#;
    let ev = parse_line(line, "/a", 0).unwrap().unwrap();
    assert!(fits_index(&ev));
    assert_eq!(SearchHit::from_doc(&event_document(&ev, &fields), &fields, 0, "x").timestamp, None);
    assert_eq!(ev, ev.clone());
}

#[test]
fn calendar_ends_where_chrono_ends() {
    assert!(chrono::DateTime::from_timestamp(MAX_SECS, 0).is_some());
    assert!(chrono::DateTime::from_timestamp(MAX_SECS + 1, 0).is_none());
    assert!(chrono::DateTime::from_timestamp(MIN_SECS, 0).is_some());
    assert!(chrono::DateTime::from_timestamp(MIN_SECS - 1, 0).is_none());
    assert!(chrono::DateTime::from_timestamp(59, 1_999_999_999).is_some());
    assert!(chrono::DateTime::from_timestamp(58, 1_000_000_000).is_none());
    assert!(chrono::DateTime::from_timestamp(-1, 1_000_000_000).is_some());
}

const NOW: Timestamp = Timestamp { secs: 1_778_422_980, nanos: 123 };

#[test]
fn relative_windows() {
    let back = |s: &str| NOW.secs - relative_since(s, NOW).unwrap().secs;
    assert_eq!(back("5s"), 5);
    assert_eq!(back("2m"), 120);
    assert_eq!(back("5h"), 18_000);
    assert_eq!(back("3d"), 259_200);
    assert_eq!(back("2w"), 1_209_600);
    assert_eq!(back("+1d"), 86_400);
    assert_eq!(back("-1d"), -86_400);
    assert_eq!(back("007s"), 7);
    assert_eq!(relative_since("0s", NOW).unwrap(), NOW);
    for (a, b) in [("2w", "14d"), ("3d", "72h"), ("5h", "300m")] {
        assert_eq!(parse_since_at(a, NOW), parse_since_at(b, NOW));
    }
    assert!(parse_since_at("4d", NOW).unwrap().secs < parse_since_at("3d", NOW).unwrap().secs);
}

#[test]
fn windows_end_with_the_calendar() {
    let far = NOW.secs - MIN_SECS;
    let first = Timestamp { secs: MIN_SECS, nanos: NOW.nanos };
    assert_eq!(relative_since(&format!("{far}s"), NOW), Ok(first));
    assert_eq!(relative_since(&format!("{}s", far + 1), NOW), Err(SinceError::OutOfRange));
    let far = MAX_SECS - NOW.secs;
    let last = Timestamp { secs: MAX_SECS, nanos: NOW.nanos };
    assert_eq!(relative_since(&format!("-{far}s"), NOW), Ok(last));
    assert_eq!(relative_since(&format!("-{}s", far + 1), NOW), Err(SinceError::OutOfRange));
    assert!(first.is_valid() && last.is_valid());
    assert!(!Timestamp { secs: MAX_SECS + 1, nanos: 0 }.is_valid());
    assert!(!Timestamp { secs: -2, nanos: 1_000_000_000 }.is_valid());
    assert!(Timestamp { secs: -1, nanos: 1_000_000_000 }.is_valid());
}

#[test]
fn what_is_no_window() {
    for s in ["", "d", "x", "--1d", "1.5d", " 1d", "+d", "-s", "9223372036854775808s", "dd", "µ"] {
        assert_eq!(relative_since(s, NOW), Err(SinceError::Value), "{s}");
    }
    for s in ["3y", "3D", "12", "-9223372036854775808x", "5µ"] {
        assert_eq!(relative_since(s, NOW), Err(SinceError::Unit), "{s}");
    }
    for s in ["9223372036854775807w", "-9223372036854775808s", "99999999999d"] {
        assert_eq!(relative_since(s, NOW), Err(SinceError::OutOfRange), "{s}");
    }
    assert_eq!(SinceError::Value.message("x"), "invalid --since value: x");
    assert_eq!(SinceError::Unit.message("3y"), "invalid time unit in --since: 3y");
    assert_eq!(SinceError::OutOfRange.message("9w"), "--since value out of range: 9w");
}

#[test]
fn windows_by_date() {
    assert_eq!(parse_since_at("2026-05-10T14:23:00Z", NOW), Ok(stamp(1_778_422_980)));
    assert_eq!(parse_since_at("2026-05-10T16:23:00+02:00", NOW), Ok(stamp(1_778_422_980)));
    assert_eq!(parse_since_at("2026-05-10", NOW), Ok(stamp(1_778_371_200)));
    assert_eq!(parse_since_at("1d", NOW), relative_since("1d", NOW));
    assert_eq!(parse_since_at("2026-13-10", NOW), Err(SinceError::Value));
    assert_eq!(parse_since("1970-01-01"), Ok(stamp(0)));
    let now = chrono::Utc::now().timestamp();
    let hour = parse_since("1h").unwrap().secs;
    assert!((now - 3_600 - hour).abs() <= 5);
    assert_eq!(parse_since("never"), Err(SinceError::Value));
}

#[test]
fn where_the_index_is() {
    assert_eq!(index_path_under(&Some("/h".to_string())).unwrap(), "/h/.sonar/index");
    assert_eq!(index_path_under(&Some("/h/".to_string())).unwrap(), "/h/.sonar/index");
    assert!(index_path_under(&None).is_err());
    if let Ok(p) = default_index_path() {
        assert!(p.ends_with("/.sonar/index"));
    }
}

#[test]
fn every_word_of_a_query_counts() {
    let (index, _writer, fields) = filled(&[
        event("an alembic upgrade", "/a", 0, None),
        event("the migration after the Alembic one", "/b", 0, None),
        event("a migration", "/c", 0, None),
    ]);
    let paths = |q: &str| -> Vec<String> {
        let mut all: Vec<String> =
            search(&index, &fields, &query(q)).into_iter().map(|h| h.file_path).collect();
        all.sort();
        all
    };
    assert_eq!(paths("alembic migration"), vec!["/b"]);
    assert_eq!(paths("Migration  ALEMBIC"), vec!["/b"]);
    assert_eq!(paths("alembic alembic"), vec!["/a", "/b"]);
    assert_eq!(paths("alembic OR migration"), vec!["/a", "/b", "/c"]);
    assert_eq!(paths("alembic AND migration"), vec!["/b"]);
    assert_eq!(paths("\"alembic migration\""), Vec::<String>::new());
    assert_eq!(paths("\"the migration\""), vec!["/b"]);
    assert_eq!(paths("alembic"), vec!["/a", "/b"]);
}

#[test]
fn deep_queries_are_refused() {
    let nested = |n: usize| format!("{}a{}", "(".repeat(n), ")".repeat(n));
    let most = MAX_NESTING as usize;
    assert!(!is_too_deep(&nested(most)));
    assert!(is_too_deep(&nested(most + 1)));
    assert!(is_too_deep(&"(".repeat(5_000)));
    match search_query(&query(&nested(60))) {
        Err(e) => {
            assert!(matches!(e, SearchError::TooDeep));
            assert_eq!(e.message(), "query nests too deep");
        }
        Ok(_) => panic!("expected a refusal"),
    }
}

#[test]
fn only_open_groups_count() {
    let many = |s: &str| s.repeat(100);
    assert!(!is_too_deep(&many("(a b) ")));
    assert!(!is_too_deep(&format!("{}\")\" 'it(' {}", many("(a b) "), many("(c) "))));
    assert!(!is_too_deep(&many("\"f(x\" ")));
    assert!(!is_too_deep(&many("f\\( ")));
    assert!(!is_too_deep(&many("src/a.rs (b) ")));
    assert!(!is_too_deep(&many("a->b (c) ")));
    assert!(!is_too_deep(&many("text:a/b (c) ")));
    assert!(search_query(&query(&"(a b) ".repeat(50))).is_ok());
    assert!(search_query(&query(&format!("\"x)\" {}", "(a b) ".repeat(50)))).is_ok());
}

#[test]
fn hidden_groups_count() {
    let deep = |front: &str| format!("{}{}", front, "(".repeat(40));
    for front in [
        "text:>don't ", "text:[a' TO b] ", "x \"a\" ", "x 'a' ", "x 'a\\'b' ", "x \\' ", "x b^2>d't ",
        "x \\\\ ", "x b^2/r'/ ", "x (b)/'/ ", "-/'/ ", "+/'/ ", "x b{'a TO c} ",
    ] {
        assert!(is_too_deep(&deep(front)), "{front}");
    }
    let hidden = "(/a)/ ".repeat(40);
    assert!(is_too_deep(&hidden));
    assert!(is_too_deep(&"x b^2/r)/ (".repeat(40)));
}

#[test]
fn negations_are_counted_as_words() {
    let most = MAX_NEGATIONS as usize;
    let chain = |n: usize| format!("x {}a", "NOT ".repeat(n));
    assert!(!is_too_deep(&chain(most)));
    assert!(is_too_deep(&chain(most + 1)));
    assert!(!is_too_deep(&"NOTE KNOT NOTHING xNOT ".repeat(200)));
    assert!(!is_too_deep(&"\"NOT a\" ".repeat(200)));
    assert!(!is_too_deep(&format!("a {}", "NOT b ".repeat(most))));
    let lines = |n: usize| format!("x {}a", "NOT\t".repeat(n));
    assert!(!is_too_deep(&lines(MAX_NESTING as usize)));
    assert!(is_too_deep(&lines(MAX_NESTING as usize + 1)));
    assert!(search_query(&query(&chain(most))).is_ok());
}

#[test]
fn a_deep_query_is_parsed() {
    assert!(search_query(&query(&format!("{}a{}", "(".repeat(15), ")".repeat(15)))).is_ok());
}

#[test]
fn windows_go_by_whole_seconds() {
    let at = |secs: i64, nanos: u32| Some(Timestamp { secs, nanos });
    let leap = 1_483_228_799;
    let (index, _writer, fields) = filled(&[
        event("common", "/a", 0, at(-2, 500_000_000)),
        event("common", "/b", 0, at(-1, 500_000_000)),
        event("common", "/c", 0, at(100, 900_000_000)),
        event("common", "/d", 0, at(leap, 0)),
        event("common", "/e", 0, at(leap + 1, 0)),
        event("common", "/f", 0, None),
    ]);
    let found = |t: Timestamp| -> String {
        let args = SearchArgs { since: Some(t), ..query("common") };
        let mut all: Vec<String> =
            search(&index, &fields, &args).into_iter().map(|h| h.file_path).collect();
        all.sort();
        all.concat()
    };
    assert_eq!(found(stamp(-2)), "/a/b/c/d/e");
    assert_eq!(found(stamp(-1)), "/a/b/c/d/e");
    assert_eq!(found(stamp(0)), "/b/c/d/e");
    assert_eq!(found(stamp(1)), "/c/d/e");
    assert_eq!(found(stamp(100)), "/c/d/e");
    assert_eq!(found(Timestamp { secs: 100, nanos: 999_999_999 }), "/c/d/e");
    assert_eq!(found(stamp(101)), "/d/e");
    assert_eq!(found(stamp(leap)), "/d/e");
    assert_eq!(found(Timestamp { secs: leap, nanos: 1_500_000_000 }), "/e");
}

#[test]
fn words_are_runs_of_letters_and_numbers() {
    let long = "w".repeat(39);
    let longer = "v".repeat(40);
    let text = format!("Fix don't-panic in foo_bar2, größe ÄB {long} {longer}x");
    let (index, _writer, fields) = filled(&[event(&text, "/a", 0, None)]);
    let found = |q: &str| !search(&index, &fields, &query(q)).is_empty();
    for q in ["FIX", "don", "t", "panic", "foo", "bar2", "fix bar2 foo", long.as_str()] {
        assert!(found(q), "{q}");
    }
    for q in ["do", "bar", "gr", "b", "fix missing", longer.as_str()] {
        assert!(!found(q), "{q}");
    }
}
