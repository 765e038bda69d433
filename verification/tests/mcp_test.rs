use sonar::clock::Timestamp;
use sonar::install::{wire, Wiring};
use sonar::json::Json;
use sonar::mcp::{
    by_label, classify_code_repos, code_repos_in, code_root_under, code_search_request, hook_config_snippet,
    mcp_config_snippet, repo_for_request, search_request, search_request_at, RepoResolution,
    SonarArgs, SonarCodeArgs,
};

fn entries(list: &[(&str, bool)]) -> Vec<(String, bool)> {
    list.iter().map(|(n, d)| (n.to_string(), *d)).collect()
}

fn labels_of(r: &RepoResolution) -> Vec<String> {
    match r {
        RepoResolution::Empty => vec![],
        RepoResolution::One(s) => vec![s.clone()],
        RepoResolution::Many(v) => v.clone(),
    }
}

#[test]
fn empty_index_resolves_to_none() {
    assert!(matches!(classify_code_repos(Some(&vec![])), RepoResolution::Empty));
    assert!(matches!(classify_code_repos(Some(&entries(&[("file", false)]))), RepoResolution::Empty));
}

#[test]
fn missing_dir_resolves_to_none() {
    assert!(matches!(classify_code_repos(None), RepoResolution::Empty));
    assert!(code_repos_in(None).is_empty());
}

#[test]
fn single_repo_resolves_to_that_repo() {
    match classify_code_repos(Some(&entries(&[("claritycare", true)]))) {
        RepoResolution::One(r) => assert_eq!(r, "claritycare"),
        other => panic!("expected One, got {:?}", labels_of(&other)),
    }
}

#[test]
fn multiple_repos_resolve_to_sorted_labels() {
    match classify_code_repos(Some(&entries(&[("sonar", true), ("claritycare", true)]))) {
        RepoResolution::Many(labels) => assert_eq!(labels, vec!["claritycare", "sonar"]),
        other => panic!("expected Many, got {:?}", labels_of(&other)),
    }
}

#[test]
fn labels_are_sorted_by_bytes() {
    let list = entries(&[("é", true), ("b", true), ("x", false), ("B", true), ("ba", true), ("b", true)]);
    let mut expected: Vec<String> =
        list.iter().filter(|e| e.1).map(|e| e.0.clone()).collect();
    expected.sort();
    assert_eq!(code_repos_in(Some(&list)), expected);
    assert_eq!(code_repos_in(Some(&list)), vec!["B", "b", "b", "ba", "é"]);
}

#[test]
fn repositories_are_told_by_their_directories() {
    let list = entries(&[("org-repo", true), ("org%-repo", true)]);
    assert_eq!(code_repos_in(Some(&list)), vec!["org%-repo", "org-repo"]);
    let found = classify_code_repos(Some(&list));
    assert_eq!(labels_of(&found), vec!["org%-repo", "org-repo"]);
    assert_eq!(labels_of(&by_label(found)), vec!["org-repo", "org/repo"]);
    match classify_code_repos(Some(&entries(&[("my-app", true)]))) {
        RepoResolution::One(name) => assert_eq!(name, "my-app"),
        other => panic!("expected One, got {:?}", labels_of(&other)),
    }
    let one = by_label(RepoResolution::One("plain".to_string()));
    assert_eq!(repo_for_request(None, one).unwrap(), "plain");
    assert!(matches!(by_label(RepoResolution::Empty), RepoResolution::Empty));
}

#[test]
fn the_later_of_two_members_is_written() {
    let member = |n: &str, s: &str| (n.to_string(), Json::Text(s.to_string()));
    let j = Json::Object(vec![member("a", "1"), member("b", "2"), member("a", "3")]);
    assert_eq!(j.compact(), r#"{"a":"3","b":"2"}"#);
}

#[test]
fn repository_of_a_request() {
    let many = || RepoResolution::Many(vec!["a".to_string(), "b".to_string()]);
    assert_eq!(repo_for_request(Some("x".to_string()), many()).unwrap(), "x");
    assert_eq!(repo_for_request(None, RepoResolution::One("a".to_string())).unwrap(), "a");
    assert_eq!(
        repo_for_request(None, RepoResolution::Empty).unwrap_err(),
        "no code repos indexed. run `sonar code index --repo <path>` first."
    );
    assert_eq!(
        repo_for_request(None, many()).unwrap_err(),
        "multiple repos indexed (a, b). specify which one with `repo: \"<label>\"`."
    );
}

fn request(since: Option<&str>) -> SonarArgs {
    SonarArgs {
        query: "q".to_string(),
        since: since.map(|s| s.to_string()),
        project: Some("p".to_string()),
        limit: Some(3),
    }
}

#[test]
fn requests_become_searches() {
    let now = Timestamp { secs: 1_000_000, nanos: 5 };
    let args = search_request_at(request(Some("2h")), now).unwrap();
    assert_eq!(args.query, "q");
    assert_eq!(args.since, Some(Timestamp { secs: 992_800, nanos: 5 }));
    assert_eq!(args.project.as_deref(), Some("p"));
    assert_eq!(args.limit, Some(3));
    assert_eq!(search_request_at(request(None), now).unwrap().since, None);
    assert_eq!(
        search_request_at(request(Some("soon")), now).unwrap_err(),
        "invalid 'since': invalid --since value: soon"
    );
    assert_eq!(
        search_request_at(request(Some("3y")), now).unwrap_err(),
        "invalid 'since': invalid time unit in --since: 3y"
    );
    let early = search_request(request(Some("3d"))).unwrap().since.unwrap();
    let late = search_request(request(Some("1s"))).unwrap().since.unwrap();
    assert!(early.secs < late.secs && early.secs > 1_700_000_000);
}

#[test]
fn code_requests_become_searches() {
    let args = SonarCodeArgs {
        query: "q".to_string(),
        repo: None,
        language: Some("rust".to_string()),
        limit: None,
    };
    let search = code_search_request(args, "label".to_string());
    assert_eq!(search.query, "q");
    assert_eq!(search.repo.as_deref(), Some("label"));
    assert_eq!(search.language.as_deref(), Some("rust"));
    assert_eq!(search.limit, None);
}

#[test]
fn snippets_to_paste() {
    assert_eq!(
        mcp_config_snippet("/bin/sonar"),
        r#"{"mcpServers":{"sonar":{"args":["mcp"],"command":"/bin/sonar"}}}"#
    );
    let hook: serde_json::Value = serde_json::from_str(&hook_config_snippet("/bin/sonar")).unwrap();
    let command = hook.pointer("/hooks/SessionEnd/0/hooks/0/command").unwrap().as_str().unwrap();
    assert_eq!(
        command,
        r#"P=$(jq -r .transcript_path 2>/dev/null) && [ -n "$P" ] && "/bin/sonar" index --file "$P" >/dev/null 2>&1 || true"#
    );
    assert_eq!(hook.pointer("/hooks/SessionEnd/0/matcher").unwrap(), "");
    assert!(hook_config_snippet("x").contains("\n  \"hooks\": {\n"));
}

#[test]
fn a_pasted_snippet_is_an_installation() {
    let bin = "/bin/sonar";
    let doc = Json::parse(&mcp_config_snippet(bin)).unwrap();
    assert!(wire(Wiring::Server, doc, bin).unwrap().is_none());
    let doc = Json::parse(&hook_config_snippet(bin)).unwrap();
    assert!(wire(Wiring::Hook, doc, bin).unwrap().is_none());
    let installed = wire(Wiring::Hook, Json::parse("{}").unwrap(), bin).unwrap().unwrap();
    assert_eq!(installed.pretty(), hook_config_snippet(bin));
}

#[test]
fn labels_do_not_depend_on_the_order_of_reading() {
    let a = entries(&[("x", true), ("a", true), ("m", true)]);
    let b = entries(&[("m", true), ("x", true), ("a", true)]);
    assert_eq!(code_repos_in(Some(&a)), code_repos_in(Some(&b)));
}

#[test]
fn directory_of_code_indexes() {
    assert_eq!(code_root_under(&Some("/h".to_string())).unwrap(), "/h/.sonar/code");
    assert!(code_root_under(&None).is_err());
}
