use sonar::cli::{
    bench_summary, code_hit_lines, decimal_of, default_label, git_answer, hit_lines, index_run,
    or_unknown, pick_first_code_repo, short_sha, sorted,
};
use sonar::code::index::CodeHit;
use sonar::index::SearchHit;
use sonar::json::Json;
use sonar::paths;

fn hit(timestamp: Option<&str>) -> SearchHit {
    SearchHit {
        session_id: "s".to_string(),
        project: "p".to_string(),
        event_role: "user".to_string(),
        timestamp: timestamp.map(|t| t.to_string()),
        file_path: "/f".to_string(),
        event_index: 0,
        snippet: "snip".to_string(),
        score_bits: 0,
    }
}

#[test]
fn results_are_numbered() {
    assert_eq!(
        hit_lines(1, &hit(Some("T"))),
        vec![" 1. [T] p s (user)", "    snip", "    /f"]
    );
    assert_eq!(hit_lines(12, &hit(None))[0], "12. [—] p s (user)");
    assert_eq!(hit_lines(100, &hit(None))[0], "100. [—] p s (user)");
    let code = CodeHit {
        repo: "r".to_string(),
        branch: "b".to_string(),
        commit_sha: "c".to_string(),
        file_path: "f.rs".to_string(),
        language: "rust".to_string(),
        size_bytes: 1,
        snippet: "snip".to_string(),
        score_bits: 0,
    };
    assert_eq!(code_hit_lines(2, &code), vec![" 2. [r/b] f.rs (rust)", "    snip"]);
}

#[test]
fn numbers_in_decimal() {
    for n in [0usize, 9, 10, 99, 100, 1_234_567_890, usize::MAX] {
        assert_eq!(decimal_of(n), n.to_string());
    }
}

#[test]
fn measurements_are_summed_up() {
    let times: Vec<u128> = vec![5, 1, 4, 1, 3];
    assert_eq!(sorted(&times), vec![1, 1, 3, 4, 5]);
    let b = bench_summary(&times, 4);
    assert_eq!((b.min, b.median, b.p95, b.max), (1, 3, 5, 5));
    let b = bench_summary(&vec![7, 2], 1);
    assert_eq!((b.min, b.median, b.p95, b.max), (2, 7, 7, 7));
    assert!(times.iter().all(|t| *t >= 1 && *t <= 5));
}

#[test]
fn fallbacks() {
    assert_eq!(default_label("/home/u/proj"), "proj");
    assert_eq!(default_label("/"), "repo");
    assert_eq!(git_answer(true, " main\n").as_deref(), Some("main"));
    assert_eq!(git_answer(false, "main"), None);
    assert_eq!(or_unknown(None), "unknown");
    assert_eq!(or_unknown(Some("x".to_string())), "x");
    assert_eq!(short_sha("0123456789abcdef"), "01234567");
    assert_eq!(short_sha("abc"), "abc");
    assert_eq!(short_sha("abcdefgé"), "abcdefg");
}

#[test]
fn what_a_repository_is_indexed_as() {
    let some = |s: &str| Some(s.to_string());
    let run = index_run("/home/u/proj", None, None, some("main"), some("abc"));
    assert_eq!((run.label.as_str(), run.branch.as_str(), run.commit_sha.as_str()), ("proj", "main", "abc"));
    let run = index_run("/home/u/proj", some("x"), some("y"), some("main"), None);
    assert_eq!((run.label.as_str(), run.branch.as_str(), run.commit_sha.as_str()), ("x", "y", "unknown"));
    let run = index_run("/", None, None, None, None);
    assert_eq!((run.label.as_str(), run.branch.as_str()), ("repo", "unknown"));
}

#[test]
fn the_only_agent() {
    let list = |l: &[(&str, bool)]| -> Vec<(String, bool)> {
        l.iter().map(|(n, b)| (n.to_string(), *b)).collect()
    };
    let found = paths::only_agent(&list(&[(".cache", false), (".agent", true), ("work", true), (".", true)]));
    assert_eq!(found.as_deref(), Some("agent"));
    assert_eq!(paths::only_agent(&list(&[(".a", true), (".b", true)])), None);
    assert_eq!(paths::only_agent(&list(&[])), None);
    assert_eq!(paths::stem("a.b.c"), "a.b");
    assert_eq!(paths::stem(".a"), ".a");
}

#[test]
fn first_repository() {
    let dirs = vec![("f".to_string(), false), ("z".to_string(), true), ("a".to_string(), true)];
    assert_eq!(pick_first_code_repo("/d", Some(&dirs)).unwrap(), "z");
    let dashed = vec![("org-repo".to_string(), true)];
    assert_eq!(pick_first_code_repo("/d", Some(&dashed)).unwrap(), "org-repo");
    assert_eq!(
        pick_first_code_repo("/d", None).unwrap_err(),
        "no code indexes found at /d. run `sonar code index --repo <path>` first."
    );
    assert_eq!(
        pick_first_code_repo("/d", Some(&vec![])).unwrap_err(),
        "no code indexes found at /d"
    );
}

#[test]
fn paths_are_taken_apart_as_std_does() {
    let all = [
        "", "/", "a", "/a", "a/b", "a/b/", "a//b", "a/./b", "./a", "a/.", "a/..", "..", ".", "/..",
        "a.b", ".a", "a.", "a.b.c", ".a.b", "x/.y/z.w", "x/y.z/", "..a", "...", "a/...b",
    ];
    for s in all {
        let p = std::path::Path::new(s);
        assert_eq!(
            paths::file_name(s).as_deref(),
            p.file_name().map(|n| n.to_str().unwrap()),
            "file name of {s:?}"
        );
        assert_eq!(
            paths::extension(s).as_deref(),
            p.extension().map(|n| n.to_str().unwrap()),
            "extension of {s:?}"
        );
        assert_eq!(
            paths::parent_name(s).as_deref(),
            p.parent().and_then(|q| q.file_name()).map(|n| n.to_str().unwrap()),
            "parent of {s:?}"
        );
        for t in ["x", "/x", "", "x/y"] {
            assert_eq!(paths::join(s, t), p.join(t).to_str().unwrap());
        }
    }
}

#[test]
fn relative_paths() {
    assert_eq!(paths::relative("/r", "/r/a/b"), "a/b");
    assert_eq!(paths::relative("/r", "/r"), "");
    assert_eq!(paths::relative("/", "/a"), "a");
    assert_eq!(paths::relative("/r", "/rx/a"), "/rx/a");
}

#[test]
fn documents_are_read_and_written() {
    let text = r#"{"b":[1,2.5,"x\n",null,true],"a":{}}"#;
    let doc = Json::parse(text).unwrap();
    assert_eq!(doc.compact(), r#"{"a":{},"b":[1,2.5,"x\n",null,true]}"#);
    assert_eq!(Json::parse(&doc.pretty()).unwrap().compact(), doc.compact());
    assert!(Json::parse(&"[".repeat(127).to_string()).is_err());
    let deep = format!("{}{}", "[".repeat(127), "]".repeat(127));
    assert!(Json::parse(&deep).is_ok());
    let deeper = format!("{}{}", "[".repeat(128), "]".repeat(128));
    assert!(Json::parse(&deeper).is_err());
    assert_eq!(doc.text("a"), None);
    assert!(doc.get("b").is_some() && doc.get("c").is_none());
    for n in ["0.1", "1e-7", "123456789012345678901234567890", "-0.0", "1.7976931348623157e308", "5e-324"] {
        let once = Json::parse(n).unwrap().pretty();
        assert_eq!(Json::parse(&once).unwrap().pretty(), once);
    }
}
