use sonar::install::{
    closing_line, hook_command, install_steps, plan_change, plan_document,
    plan_restore, report_line, uninstall_targets, wire, Action, InstallError, InstallOpts, Target,
    Wiring,
};
use sonar::json::Json;
use std::collections::BTreeMap;

const BIN: &str = "/usr/local/bin/sonar";

type Files = BTreeMap<String, String>;

fn home() -> Option<String> {
    Some("/home/u".to_string())
}

fn perform(files: &mut Files, actions: &[Action]) {
    for a in actions {
        match a {
            Action::CreateDir(_) => {}
            Action::Copy(from, to) => {
                let content = files[from].clone();
                files.insert(to.clone(), content);
            }
            Action::Write(path, content) => {
                files.insert(path.clone(), content.clone());
            }
            Action::Rename(from, to) => {
                let content = files.remove(from).unwrap();
                files.insert(to.clone(), content);
            }
        }
    }
}

fn install(files: &mut Files, opts: &InstallOpts) -> Result<Vec<String>, InstallError> {
    let mut told = Vec::new();
    for (wiring, target) in install_steps(opts, "agent", &home())? {
        let raw = files.get(&target.path()).cloned();
        let backed_up = files.contains_key(&target.backup_path());
        let change = plan_change(wiring, &target, raw.as_deref(), backed_up, opts.dry_run, BIN)?;
        perform(files, &change.actions);
        told.push(report_line(wiring, &target.path(), &change.summary));
    }
    Ok(told)
}

fn uninstall(files: &mut Files, project: Option<&str>) -> Vec<String> {
    let mut told = Vec::new();
    for target in uninstall_targets(&project.map(|p| p.to_string()), "agent", &home()).unwrap() {
        let change = plan_restore(&target, files.contains_key(&target.backup_path()));
        perform(files, &change.actions);
        told.push(change.summary);
    }
    told
}

fn seeded(settings: &str, servers: &str) -> Files {
    let mut files = Files::new();
    files.insert("/home/u/.agent/settings.json".to_string(), settings.to_string());
    files.insert("/home/u/.agent.json".to_string(), servers.to_string());
    files
}

#[test]
fn install_creates_hook_and_mcp_with_backups() {
    let existing = r#"{"hooks": {"Stop": [{ "hooks": [{ "type": "command", "command": "afplay foo.aiff" }] }]}}"#;
    let mut files = seeded(existing, r#"{"mcpServers": null}"#);
    let told = install(&mut files, &InstallOpts::default()).unwrap();
    assert_eq!(
        told,
        vec![
            "hook  (/home/u/.agent/settings.json): added SessionEnd hook for sonar",
            "mcp   (/home/u/.agent.json): registered sonar MCP server",
        ]
    );

    let settings: serde_json::Value =
        serde_json::from_str(&files["/home/u/.agent/settings.json"]).unwrap();
    let session_end = settings.pointer("/hooks/SessionEnd").unwrap();
    assert!(session_end.is_array());
    assert_eq!(session_end.as_array().unwrap().len(), 1);
    let stop = settings.pointer("/hooks/Stop").unwrap();
    assert!(stop.is_array());
    assert!(stop.as_array().unwrap()[0].to_string().contains("afplay foo.aiff"));

    assert_eq!(files["/home/u/.agent/settings.json.pre-sonar"], existing);

    let mcp: serde_json::Value = serde_json::from_str(&files["/home/u/.agent.json"]).unwrap();
    assert_eq!(mcp.pointer("/mcpServers/sonar/args").unwrap().to_string(), r#"["mcp"]"#);
    assert_eq!(mcp.pointer("/mcpServers/sonar/command").unwrap(), BIN);
    assert!(files.contains_key("/home/u/.agent.json.pre-sonar"));
    assert_eq!(files.len(), 4);
}

#[test]
fn install_is_idempotent() {
    let mut files = seeded("{}", "{}");
    install(&mut files, &InstallOpts::default()).unwrap();
    let after_first = files.clone();
    let told = install(&mut files, &InstallOpts::default()).unwrap();
    assert_eq!(after_first, files);
    assert_eq!(told[0], "hook  (/home/u/.agent/settings.json): already installed");
    assert_eq!(told[1], "mcp   (/home/u/.agent.json): already installed");
}

#[test]
fn uninstall_restores_from_backup() {
    let original = r#"{"hooks": {"Stop": []}}"#;
    let mut files = seeded(original, "{}");
    install(&mut files, &InstallOpts::default()).unwrap();
    assert!(files["/home/u/.agent/settings.json"].contains("SessionEnd"));
    let told = uninstall(&mut files, None);
    assert_eq!(files["/home/u/.agent/settings.json"], original);
    assert_eq!(files["/home/u/.agent.json"], "{}");
    assert_eq!(told[0], "restored /home/u/.agent/settings.json");
    let restored = files.clone();
    uninstall(&mut files, None);
    assert_eq!(files, restored);
    let told = uninstall(&mut Files::new(), Some("/p"));
    assert_eq!(told[1], "skip  (/p/.mcp.json): no backup");
}

#[test]
fn dry_run_writes_nothing() {
    let mut files = seeded("{}", "{}");
    let before = files.clone();
    let opts = InstallOpts { dry_run: true, ..InstallOpts::default() };
    let told = install(&mut files, &opts).unwrap();
    assert_eq!(files, before);
    assert!(!files.contains_key("/home/u/.agent/settings.json.pre-sonar"));
    assert_eq!(
        told[0],
        "hook  (/home/u/.agent/settings.json): would: added SessionEnd hook for sonar (dry-run)"
    );
    assert_eq!(
        told[1],
        "mcp   (/home/u/.agent.json): would: registered sonar MCP server (dry-run)"
    );
}

#[test]
fn first_backup_is_kept() {
    let mut files = seeded("{}", "{}");
    files.insert("/home/u/.agent/settings.json.pre-sonar".to_string(), "older".to_string());
    install(&mut files, &InstallOpts::default()).unwrap();
    assert_eq!(files["/home/u/.agent/settings.json.pre-sonar"], "older");
}

#[test]
fn parts_can_be_left_out_and_scoped() {
    let mut files = Files::new();
    let opts = InstallOpts {
        no_hook: true,
        project_mcp: Some("/work/p".to_string()),
        ..InstallOpts::default()
    };
    install(&mut files, &opts).unwrap();
    assert_eq!(files.keys().collect::<Vec<_>>(), vec!["/work/p/.mcp.json"]);
    assert!(install_steps(&opts, "agent", &None).is_ok());

    let mut files = Files::new();
    install(&mut files, &InstallOpts { no_mcp: true, ..InstallOpts::default() }).unwrap();
    assert_eq!(files.keys().collect::<Vec<_>>(), vec!["/home/u/.agent/settings.json"]);
    assert!(matches!(install_steps(&InstallOpts::default(), "agent", &None), Err(InstallError::NoHome)));
    assert!(matches!(uninstall_targets(&None, "agent", &None), Err(InstallError::NoHome)));
}

#[test]
fn a_new_file_gets_its_directory() {
    let steps = install_steps(&InstallOpts::default(), "agent", &home()).unwrap();
    let change = plan_change(Wiring::Hook, &steps[0].1, None, false, false, BIN).unwrap();
    match &change.actions[0] {
        Action::CreateDir(d) => assert_eq!(d, "/home/u/.agent"),
        _ => panic!("expected a directory"),
    }
    match &change.actions[1] {
        Action::Write(p, _) => assert_eq!(p, "/home/u/.agent/settings.json.sonar-tmp"),
        _ => panic!("expected a write"),
    }
    assert_eq!(change.actions.len(), 3);
}

#[test]
fn everything_else_is_preserved() {
    let mut files = seeded(
        r#"{"a": 1.5, "hooks": {"SessionEnd": [{"x": 1}], "Start": true}}"#,
        r#"{"b": [1e300], "mcpServers": {"other": {"command": "o"}, "sonar": {"command": "old", "args": ["mcp"]}}}"#,
    );
    install(&mut files, &InstallOpts::default()).unwrap();
    let settings: serde_json::Value =
        serde_json::from_str(&files["/home/u/.agent/settings.json"]).unwrap();
    assert_eq!(settings["a"], 1.5);
    assert_eq!(settings["hooks"]["Start"], true);
    assert_eq!(settings["hooks"]["SessionEnd"][0]["x"], 1);
    assert_eq!(settings["hooks"]["SessionEnd"][1]["hooks"][0]["command"], hook_command(BIN));
    let mcp: serde_json::Value = serde_json::from_str(&files["/home/u/.agent.json"]).unwrap();
    assert_eq!(mcp["b"][0], 1e300);
    assert_eq!(mcp["mcpServers"]["other"]["command"], "o");
    assert_eq!(mcp["mcpServers"]["sonar"]["command"], BIN);
}

#[test]
fn odd_documents_are_coerced() {
    for odd in ["", " \n", "null", "[1]", "\"x\"", "{\"hooks\": 5}", "{\"hooks\": null}"] {
        let mut files = seeded(odd, "{}");
        install(&mut files, &InstallOpts::default()).unwrap();
        let settings: serde_json::Value =
            serde_json::from_str(&files["/home/u/.agent/settings.json"]).unwrap();
        assert_eq!(settings["hooks"]["SessionEnd"][0]["hooks"][0]["command"], hook_command(BIN));
    }
}

#[test]
fn an_installed_hook_is_recognized() {
    let already = [
        r#"{"hooks": {"SessionEnd": [{"hooks": [{"command": "x /usr/local/bin/sonar y"}]}]}}"#,
        r#"{"hooks": {"SessionEnd": [1, {"hooks": {"0": {"command": "/usr/local/bin/sonar"}}}]}}"#,
    ];
    for raw in already {
        assert!(wire(Wiring::Hook, Json::parse(raw).unwrap(), BIN).unwrap().is_none());
    }
    let not_yet = [
        r#"{"hooks": {"SessionEnd": [{"hooks": [{"command": "x"}, {"command": "/usr/local/bin/sonar"}]}]}}"#,
        r#"{"hooks": {"SessionEnd": [{"hooks": []}, {"hooks": [{"command": 5}]}]}}"#,
    ];
    for raw in not_yet {
        assert!(wire(Wiring::Hook, Json::parse(raw).unwrap(), BIN).unwrap().is_some());
    }
    let more = r#"{"mcpServers": {"sonar": {"command": "/usr/local/bin/sonar", "args": ["mcp"], "env": {}}}}"#;
    assert!(wire(Wiring::Server, Json::parse(more).unwrap(), BIN).unwrap().is_some());
    let same = r#"{"mcpServers": {"sonar": {"args": ["mcp"], "command": "/usr/local/bin/sonar"}}}"#;
    assert!(wire(Wiring::Server, Json::parse(same).unwrap(), BIN).unwrap().is_none());
}

#[test]
fn failures_are_told() {
    let mut files = seeded(r#"{"hooks": {"SessionEnd": {}}}"#, "{}");
    let before = files.clone();
    let e = install(&mut files, &InstallOpts::default()).unwrap_err();
    assert_eq!(e.message("/s"), "SessionEnd is not an array");
    assert_eq!(files, before);

    let mut files = seeded("{oops", "{}");
    let e = install(&mut files, &InstallOpts::default()).unwrap_err();
    assert_eq!(e.message("/s"), "parsing JSON in /s");
    match e {
        InstallError::NotJson(why) => assert_eq!(why, "key must be a string at line 1 column 2"),
        _ => panic!("expected a syntax error"),
    }
    assert_eq!(InstallError::NoHome.message(""), "could not resolve $HOME");
}

#[test]
fn plan_for_a_document() {
    let steps = install_steps(&InstallOpts::default(), "agent", &home()).unwrap();
    let doc = Json::Object(vec![]);
    let change = plan_document(Wiring::Server, &steps[1].1, doc, true, true, false, BIN).unwrap();
    assert_eq!(change.summary, "registered sonar MCP server");
    assert_eq!(change.actions.len(), 2);
    match &change.actions[0] {
        Action::Write(path, content) => {
            assert_eq!(path, "/home/u/.agent.json.sonar-tmp");
            assert_eq!(
                content,
                "{\n  \"mcpServers\": {\n    \"sonar\": {\n      \"args\": [\n        \"mcp\"\n      ],\n      \"command\": \"/usr/local/bin/sonar\"\n    }\n  }\n}"
            );
        }
        _ => panic!("expected a write"),
    }
}

#[test]
fn closing_lines() {
    assert_eq!(closing_line(true, "Agent"), "\n(dry-run — nothing written. omit --dry-run to apply.)");
    assert_eq!(
        closing_line(false, "Agent"),
        "\nDone. Restart Agent so the MCP server loads. The hook works without restart."
    );
}

#[test]
fn copies_are_named_after_the_file() {
    let steps = install_steps(&InstallOpts::default(), "agent", &Some("/h/".to_string())).unwrap();
    assert_eq!(steps[0].1.path(), "/h/.agent/settings.json");
    assert_eq!(steps[0].1.backup_path(), "/h/.agent/settings.json.pre-sonar");
    assert_eq!(steps[1].1.path(), "/h/.agent.json");
    let odd = Target { dir: "d".to_string(), name: "x.y.toml".to_string() };
    let change = plan_change(Wiring::Server, &odd, Some("{}"), true, false, BIN).unwrap();
    match &change.actions[0] {
        Action::Write(p, _) => assert_eq!(p, "d/x.y.json.sonar-tmp"),
        _ => panic!("expected a write"),
    }
}
