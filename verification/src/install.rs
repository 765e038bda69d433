//! Wires sonar into the agent's configuration: a hook that indexes a session when
//! it ends, and an entry for the search server. The decisions are made here, as
//! lists of actions on files.

use vstd::prelude::*;
use crate::json;
use crate::json::{put_member, take_member, Json, Tree};
use crate::paths;
use crate::text;
use crate::text::{blank, chars_of, find, same};

verus! {

/// What to install, and where.
#[derive(Debug, Default, Clone)]
pub struct InstallOpts {
    pub no_hook: bool,
    pub no_mcp: bool,
    pub project_mcp: Option<String>,
    pub dry_run: bool,
}

/// One of the two things to install.
#[derive(Clone, Copy, Debug, PartialEq, Eq, Structural)]
pub enum Wiring {
    /// The hook that runs at the end of a session.
    Hook,
    /// The entry for the search server.
    Server,
}

/// A configuration file: the directory that it is in, and its name there.
#[derive(Debug, Clone)]
pub struct Target {
    pub dir: String,
    pub name: String,
}

/// Where a configuration file is.
#[verifier::ext_equal]
pub struct Place {
    pub dir: Seq<char>,
    pub name: Seq<char>,
}

/// The name of a file while it is written: with another extension in the place of
/// its own.
pub open spec fn temp_name(name: Seq<char>) -> Seq<char> {
    let dot = paths::last_index(name, '.');
    (if dot > 0 {
        name.take(dot)
    } else {
        name
    }) + ".json.sonar-tmp"@
}

impl Place {
    /// The path of the file.
    pub open spec fn path(self) -> Seq<char> {
        paths::join_path(self.dir, self.name)
    }

    /// The path of the copy of the file as it was before its first change.
    pub open spec fn backup(self) -> Seq<char> {
        paths::join_path(self.dir, self.name + ".pre-sonar"@)
    }

    /// The path of the file while it is written.
    pub open spec fn temp(self) -> Seq<char> {
        paths::join_path(self.dir, temp_name(self.name))
    }

    /// Whether the name is one.
    pub open spec fn plain(self) -> bool {
        self.name.len() > 0 && self.name[0] != '/'
    }
}

impl View for Target {
    type V = Place;

    open spec fn view(&self) -> Place {
        Place { dir: self.dir@, name: self.name@ }
    }
}

impl Target {
    /// The path of the file.
    pub fn path(&self) -> (r: String)
        ensures
            r@ == self@.path(),
    {
        paths::join(self.dir.as_str(), self.name.as_str())
    }

    /// The path of the copy of the file as it was before its first change.
    pub fn backup_path(&self) -> (r: String)
        ensures
            r@ == self@.backup(),
    {
        let mut name = self.name.clone();
        name.append(".pre-sonar");
        paths::join(self.dir.as_str(), name.as_str())
    }

    /// The path of the file while it is written.
    fn temp_path(&self) -> (r: String)
        ensures
            r@ == self@.temp(),
    {
        let mut name = paths::stem(self.name.as_str());
        name.append(".json.sonar-tmp");
        paths::join(self.dir.as_str(), name.as_str())
    }
}

/// Why something could not be installed.
#[derive(Debug, Clone)]
pub enum InstallError {
    /// There is no home directory.
    NoHome,
    /// The file is not JSON, and this is what is wrong with it.
    NotJson(String),
    /// The file has something other than a list of hooks for the end of a session.
    SessionEndNotArray,
}

impl InstallError {
    /// What could not be done with the file.
    pub fn message(&self, path: &str) -> (r: String)
        ensures
            r@ == match *self {
                InstallError::NoHome => "could not resolve $HOME"@,
                InstallError::NotJson(_) => "parsing JSON in "@ + path@,
                InstallError::SessionEndNotArray => "SessionEnd is not an array"@,
            },
    {
        match self {
            InstallError::NoHome => "could not resolve $HOME".to_string(),
            InstallError::NotJson(_) => {
                let mut out = "parsing JSON in ".to_string();
                out.append(path);
                out
            },
            InstallError::SessionEndNotArray => "SessionEnd is not an array".to_string(),
        }
    }
}

/// The file that holds an agent's hooks, under a home directory.
pub open spec fn settings_file(agent: Seq<char>, home: Seq<char>) -> Place {
    Place { dir: paths::join_path(home, paths::agent_dir(agent)), name: "settings.json"@ }
}

/// The file that holds an agent's servers: those of a project, or those of all.
pub open spec fn server_file(
    project: Option<Seq<char>>,
    agent: Seq<char>,
    home: Seq<char>,
) -> Place {
    match project {
        Some(dir) => Place { dir, name: ".mcp.json"@ },
        None => Place { dir: home, name: paths::agent_dir(agent) + ".json"@ },
    }
}

/// The file that holds an agent's hooks.
pub fn settings_path(agent: &str, home: &Option<String>) -> (r: Result<Target, InstallError>)
    ensures
        match r {
            Ok(t) => home matches Some(h) && t@ == settings_file(agent@, h@),
            Err(e) => home is None && e is NoHome,
        },
{
    match home {
        Some(h) => {
            let dir = paths::join(h.as_str(), paths::agent_dir_name(agent).as_str());
            Ok(Target { dir, name: "settings.json".to_string() })
        },
        None => Err(InstallError::NoHome),
    }
}

/// The file that holds an agent's servers of all projects.
pub fn global_mcp_path(agent: &str, home: &Option<String>) -> (r: Result<Target, InstallError>)
    ensures
        match r {
            Ok(t) => home matches Some(h) && t@ == server_file(None, agent@, h@),
            Err(e) => home is None && e is NoHome,
        },
{
    match home {
        Some(h) => {
            let mut name = paths::agent_dir_name(agent);
            name.append(".json");
            Ok(Target { dir: h.clone(), name })
        },
        None => Err(InstallError::NoHome),
    }
}

/// The file that holds the servers of one project.
pub fn project_mcp_path(dir: &str) -> (r: Target)
    ensures
        r@ == (Place { dir: dir@, name: ".mcp.json"@ }),
{
    Target { dir: dir.to_string(), name: ".mcp.json".to_string() }
}

/// The command that indexes a session's transcript when the session ends.
pub open spec fn hook_text(bin: Seq<char>) -> Seq<char> {
    "P=$(jq -r .transcript_path 2>/dev/null) && [ -n \"$P\" ] && \""@ + bin
        + "\" index --file \"$P\" >/dev/null 2>&1 || true"@
}

/// The command that indexes a session's transcript when the session ends.
pub fn hook_command(bin: &str) -> (r: String)
    ensures
        r@ == hook_text(bin@),
{
    let mut out = "P=$(jq -r .transcript_path 2>/dev/null) && [ -n \"$P\" ] && \"".to_string();
    out.append(bin);
    out.append("\" index --file \"$P\" >/dev/null 2>&1 || true");
    out
}

/// The members of a document: none unless it is an object.
pub open spec fn object_of(t: Tree) -> Map<Seq<char>, Tree> {
    match t {
        Tree::Object(m) => m,
        _ => Map::empty(),
    }
}

/// The members of the member with the given name.
pub open spec fn object_member(t: Tree, name: Seq<char>) -> Map<Seq<char>, Tree> {
    match json::member(t, name) {
        Some(x) => object_of(x),
        None => Map::empty(),
    }
}

/// The hooks for the end of a session, unless there is something other than a list
/// in their place.
pub open spec fn session_end_hooks(t: Tree) -> Option<Seq<Tree>> {
    let hooks = object_member(t, "hooks"@);
    if hooks.contains_key("SessionEnd"@) {
        match hooks["SessionEnd"@] {
            Tree::Array(s) => Some(s),
            _ => None,
        }
    } else {
        Some(seq![])
    }
}

/// The first of a list, or the member of an object that is named as its place.
pub open spec fn first_item(t: Tree) -> Option<Tree> {
    match t {
        Tree::Array(s) => if s.len() > 0 {
            Some(s[0])
        } else {
            None
        },
        _ => json::member(t, "0"@),
    }
}

/// The command that an entry of the hooks runs first.
pub open spec fn entry_command(entry: Tree) -> Option<Seq<char>> {
    match json::member(entry, "hooks"@) {
        Some(list) => match first_item(list) {
            Some(first) => json::text_member(first, "command"@),
            None => None,
        },
        None => None,
    }
}

/// Whether an entry of the hooks runs a program.
pub open spec fn runs_program(entry: Tree, bin: Seq<char>) -> bool {
    entry_command(entry) matches Some(command) && text::occurs(command, bin)
}

/// Whether one of the hooks for the end of a session runs a program.
pub open spec fn hook_installed(hooks: Seq<Tree>, bin: Seq<char>) -> bool {
    exists|i: int| 0 <= i < hooks.len() && runs_program(#[trigger] hooks[i], bin)
}

/// The entry of the hooks that runs a program.
pub open spec fn hook_entry(bin: Seq<char>) -> Tree {
    Tree::Object(
        Map::empty().insert("matcher"@, Tree::Text(seq![])).insert(
            "hooks"@,
            Tree::Array(
                seq![
                    Tree::Object(
                        Map::empty().insert("type"@, Tree::Text("command"@)).insert(
                            "command"@,
                            Tree::Text(hook_text(bin)),
                        ),
                    ),
                ],
            ),
        ),
    )
}

/// A document with one more hook for the end of a session.
pub open spec fn with_hook(t: Tree, hooks: Seq<Tree>, bin: Seq<char>) -> Tree {
    Tree::Object(
        object_of(t).insert(
            "hooks"@,
            Tree::Object(
                object_member(t, "hooks"@).insert(
                    "SessionEnd"@,
                    Tree::Array(hooks.push(hook_entry(bin))),
                ),
            ),
        ),
    )
}

/// The entry for the search server.
pub open spec fn server_entry(bin: Seq<char>) -> Tree {
    Tree::Object(
        Map::empty().insert("command"@, Tree::Text(bin)).insert(
            "args"@,
            Tree::Array(seq![Tree::Text("mcp"@)]),
        ),
    )
}

/// Whether the search server is registered.
pub open spec fn server_registered(t: Tree, bin: Seq<char>) -> bool {
    let servers = object_member(t, "mcpServers"@);
    servers.contains_key("sonar"@) && servers["sonar"@] == server_entry(bin)
}

/// A document with the search server registered.
pub open spec fn with_server(t: Tree, bin: Seq<char>) -> Tree {
    Tree::Object(
        object_of(t).insert(
            "mcpServers"@,
            Tree::Object(
                object_member(t, "mcpServers"@).insert("sonar"@, server_entry(bin)),
            ),
        ),
    )
}

/// What is to become of a document, if it has to change; an error where it holds
/// something other than a list of hooks.
pub open spec fn wired(w: Wiring, t: Tree, bin: Seq<char>) -> Result<Option<Tree>, ()> {
    match w {
        Wiring::Hook => match session_end_hooks(t) {
            None => Err(()),
            Some(hooks) => if hook_installed(hooks, bin) {
                Ok(None)
            } else {
                Ok(Some(with_hook(t, hooks, bin)))
            },
        },
        Wiring::Server => if server_registered(t, bin) {
            Ok(None)
        } else {
            Ok(Some(with_server(t, bin)))
        },
    }
}

/// What a file says: an empty object where it is missing or blank.
pub open spec fn document_of(raw: Option<Seq<char>>) -> Option<Tree> {
    match raw {
        Some(s) => if text::is_blank(s) {
            Some(Tree::Object(Map::empty()))
        } else {
            json::json_read(s)
        },
        None => Some(Tree::Object(Map::empty())),
    }
}

/// What the documents of a list say.
pub open spec fn trees(v: Seq<Json>) -> Seq<Tree> {
    v.map_values(|j: Json| json::tree(j))
}

/// An array says what its documents say.
pub proof fn lemma_array(v: Vec<Json>)
    ensures
        json::tree(Json::Array(v)) == Tree::Array(trees(v@)),
{
    assert(json::tree(Json::Array(v))->Array_0 =~= trees(v@));
}

/// The members of a document, none unless it is an object.
fn ensure_object(v: Json) -> (r: Vec<(String, Json)>)
    ensures
        json::members(r@) == object_of(json::tree(v)),
{
    match v {
        Json::Object(list) => list,
        _ => Vec::new(),
    }
}

/// The command that an entry of the hooks runs first.
fn command_of(entry: &Json) -> (r: Option<&str>)
    ensures
        match r {
            Some(s) => entry_command(json::tree(*entry)) == Some(s@),
            None => entry_command(json::tree(*entry)) is None,
        },
{
    let list: &Json = match entry.get("hooks") {
        Some(l) => l,
        None => return None,
    };
    let first: Option<&Json> = match list {
        Json::Array(a) => {
            proof {
                lemma_array(*a);
            }
            if a.len() > 0 {
                Some(&a[0])
            } else {
                None
            }
        },
        _ => list.get("0"),
    };
    match first {
        Some(x) => x.text("command"),
        None => None,
    }
}

/// Whether `s` holds `part`.
fn contains(s: &str, part: &str) -> (r: bool)
    ensures
        r == text::occurs(s@, part@),
{
    match find(&chars_of(s), &chars_of(part)) {
        Some(at) => {
            assert(text::occurs_at(s@, part@, at as int));
            true
        },
        None => false,
    }
}

/// Whether one of the hooks runs a program.
fn is_hooked(hooks: &Vec<Json>, bin: &str) -> (r: bool)
    ensures
        r == hook_installed(trees(hooks@), bin@),
{
    let mut i: usize = 0;
    while i < hooks.len()
        invariant
            i <= hooks.len(),
            forall|k: int| 0 <= k < i ==> !runs_program(#[trigger] trees(hooks@)[k], bin@),
        decreases hooks.len() - i,
    {
        assert(trees(hooks@)[i as int] == json::tree(hooks@[i as int]));
        match command_of(&hooks[i]) {
            Some(command) => {
                if contains(command, bin) {
                    assert(runs_program(trees(hooks@)[i as int], bin@));
                    return true;
                }
            },
            None => {},
        }
        i += 1;
    }
    false
}

/// The entry of the hooks that runs a program.
pub(crate) fn make_hook_entry(bin: &str) -> (r: Json)
    ensures
        json::tree(r) == hook_entry(bin@),
{
    let mut run: Vec<(String, Json)> = Vec::new();
    put_member(&mut run, "type", Json::Text("command".to_string()));
    put_member(&mut run, "command", Json::Text(hook_command(bin)));
    let mut list: Vec<Json> = Vec::new();
    list.push(Json::Object(run));
    let mut entry: Vec<(String, Json)> = Vec::new();
    let none = String::new();
    put_member(&mut entry, "matcher", Json::Text(none));
    proof {
        lemma_array(list);
        assert(trees(list@) =~= seq![json::tree(list@[0])]);
        assert(none@ =~= seq![]);
    }
    put_member(&mut entry, "hooks", Json::Array(list));
    Json::Object(entry)
}

/// The entry for the search server.
pub(crate) fn make_server_entry(bin: &str) -> (r: Json)
    ensures
        json::tree(r) == server_entry(bin@),
{
    let mut args: Vec<Json> = Vec::new();
    args.push(Json::Text("mcp".to_string()));
    let mut entry: Vec<(String, Json)> = Vec::new();
    put_member(&mut entry, "command", Json::Text(bin.to_string()));
    proof {
        lemma_array(args);
        assert(trees(args@) =~= seq![Tree::Text("mcp"@)]);
    }
    put_member(&mut entry, "args", Json::Array(args));
    Json::Object(entry)
}

/// Whether a document is a list of one text.
fn is_list_of(j: &Json, word: &str) -> (r: bool)
    ensures
        r == (json::tree(*j) == Tree::Array(seq![Tree::Text(word@)])),
{
    match j {
        Json::Array(a) => {
            proof {
                lemma_array(*a);
            }
            if a.len() != 1 {
                assert(trees(a@).len() != seq![Tree::Text(word@)].len());
                return false;
            }
            assert(trees(a@)[0] == json::tree(a@[0]));
            match a[0].as_text() {
                Some(s) => {
                    let r = same(s, word);
                    proof {
                        if r {
                            assert(trees(a@) =~= seq![Tree::Text(word@)]);
                        } else {
                            assert(seq![Tree::Text(word@)][0] == Tree::Text(word@));
                        }
                    }
                    r
                },
                None => {
                    assert(seq![Tree::Text(word@)][0] == Tree::Text(word@));
                    false
                },
            }
        },
        _ => false,
    }
}

/// Whether a document is the entry for the search server.
fn is_server_entry(j: &Json, bin: &str) -> (r: bool)
    ensures
        r == (json::tree(*j) == server_entry(bin@)),
{
    let ghost wanted = server_entry(bin@)->Object_0;
    proof {
        reveal_strlit("command");
        reveal_strlit("args");
        assert("command"@.len() == 7 && "args"@.len() == 4);
        assert(wanted["command"@] == Tree::Text(bin@));
        assert(wanted["args"@] == Tree::Array(seq![Tree::Text("mcp"@)]));
        assert(wanted.contains_key("command"@) && wanted.contains_key("args"@));
    }
    let list: &Vec<(String, Json)> = match j {
        Json::Object(list) => list,
        _ => return false,
    };
    let mut i: usize = 0;
    while i < list.len()
        invariant
            i <= list.len(),
            *j == Json::Object(*list),
            wanted == server_entry(bin@)->Object_0,
            forall|k: int|
                0 <= k < i ==> (#[trigger] list@[k]).0@ == "command"@ || list@[k].0@ == "args"@,
        decreases list.len() - i,
    {
        if !same(list[i].0.as_str(), "command") && !same(list[i].0.as_str(), "args") {
            proof {
                json::lemma_members_dom(list@, list@[i as int].0@);
                assert(!wanted.contains_key(list@[i as int].0@));
                assert(json::members(list@).contains_key(list@[i as int].0@));
            }
            return false;
        }
        i += 1;
    }
    let named: bool = match j.text("command") {
        Some(s) => same(s, bin),
        None => false,
    };
    let called: bool = match j.get("args") {
        Some(a) => is_list_of(a, "mcp"),
        None => false,
    };
    proof {
        let m = json::members(list@);
        if named && called {
            assert forall|k: Seq<char>| m.contains_key(k) == wanted.contains_key(k) by {
                json::lemma_members_dom(list@, k);
            }
            assert(m =~= wanted);
        }
    }
    named && called
}

/// What is to become of a document, if it has to change.
pub fn wire(w: Wiring, doc: Json, bin: &str) -> (r: Result<Option<Json>, InstallError>)
    ensures
        match r {
            Ok(Some(j)) => wired(w, json::tree(doc), bin@) == Ok::<Option<Tree>, ()>(
                Some(json::tree(j)),
            ),
            Ok(None) => wired(w, json::tree(doc), bin@) == Ok::<Option<Tree>, ()>(None),
            Err(e) => wired(w, json::tree(doc), bin@) is Err && e is SessionEndNotArray,
        },
{
    let ghost t = json::tree(doc);
    match w {
        Wiring::Hook => {
            let mut root = ensure_object(doc);
            let mut hooks = match take_member(&mut root, "hooks") {
                Some(h) => ensure_object(h),
                None => Vec::new(),
            };
            assert(json::members(hooks@) == object_member(t, "hooks"@));
            let mut list: Vec<Json> = match take_member(&mut hooks, "SessionEnd") {
                Some(Json::Array(a)) => {
                    proof {
                        lemma_array(a);
                    }
                    a
                },
                Some(_) => return Err(InstallError::SessionEndNotArray),
                None => {
                    let none: Vec<Json> = Vec::new();
                    assert(trees(none@) =~= seq![]);
                    none
                },
            };
            let ghost before = trees(list@);
            assert(session_end_hooks(t) == Some(before));
            if is_hooked(&list, bin) {
                return Ok(None);
            }
            let entry = make_hook_entry(bin);
            list.push(entry);
            proof {
                lemma_array(list);
                assert(trees(list@) =~= before.push(hook_entry(bin@)));
            }
            put_member(&mut hooks, "SessionEnd", Json::Array(list));
            assert(json::members(hooks@) =~= object_member(t, "hooks"@).insert(
                "SessionEnd"@,
                Tree::Array(before.push(hook_entry(bin@))),
            ));
            put_member(&mut root, "hooks", Json::Object(hooks));
            assert(json::members(root@) =~= with_hook(t, before, bin@)->Object_0);
            Ok(Some(Json::Object(root)))
        },
        Wiring::Server => {
            let mut root = ensure_object(doc);
            let mut servers = match take_member(&mut root, "mcpServers") {
                Some(s) => ensure_object(s),
                None => Vec::new(),
            };
            assert(json::members(servers@) == object_member(t, "mcpServers"@));
            match take_member(&mut servers, "sonar") {
                Some(old_entry) => {
                    if is_server_entry(&old_entry, bin) {
                        return Ok(None);
                    }
                },
                None => {},
            }
            put_member(&mut servers, "sonar", make_server_entry(bin));
            assert(json::members(servers@) =~= object_member(t, "mcpServers"@).insert(
                "sonar"@,
                server_entry(bin@),
            ));
            put_member(&mut root, "mcpServers", Json::Object(servers));
            assert(json::members(root@) =~= with_server(t, bin@)->Object_0);
            Ok(Some(Json::Object(root)))
        },
    }
}

/// Something to do with files.
#[derive(Debug, Clone)]
pub enum Action {
    /// Make the directory, and those above it, unless it is there.
    CreateDir(String),
    /// Copy the first file to the second.
    Copy(String, String),
    /// Write the second text to the first file.
    Write(String, String),
    /// Move the first file to the second, which it replaces.
    Rename(String, String),
}

/// What an action says.
pub enum ActionView {
    CreateDir(Seq<char>),
    Copy(Seq<char>, Seq<char>),
    Write(Seq<char>, Seq<char>),
    Rename(Seq<char>, Seq<char>),
}

impl View for Action {
    type V = ActionView;

    open spec fn view(&self) -> ActionView {
        match *self {
            Action::CreateDir(d) => ActionView::CreateDir(d@),
            Action::Copy(from, to) => ActionView::Copy(from@, to@),
            Action::Write(path, content) => ActionView::Write(path@, content@),
            Action::Rename(from, to) => ActionView::Rename(from@, to@),
        }
    }
}

/// What is to be done, and how it is told.
pub struct Change {
    pub summary: String,
    pub actions: Vec<Action>,
}

/// What actions say.
pub open spec fn action_views(v: Seq<Action>) -> Seq<ActionView> {
    v.map_values(|a: Action| a@)
}

/// The actions by which a file comes to hold a document. Before its first change
/// an existing file is copied; the new content is written beside the file, which
/// it then replaces at once.
pub open spec fn write_actions(
    file: Place,
    present: bool,
    backed_up: bool,
    content: Seq<char>,
) -> Seq<ActionView> {
    (if !present {
        seq![ActionView::CreateDir(file.dir)]
    } else if !backed_up {
        seq![ActionView::Copy(file.path(), file.backup())]
    } else {
        seq![]
    }) + seq![
        ActionView::Write(file.temp(), content),
        ActionView::Rename(file.temp(), file.path()),
    ]
}

/// The actions for what is to become of a file's document. There are none where it
/// stays as it is, and none in a dry run.
pub open spec fn change_actions(
    edit: Option<Tree>,
    file: Place,
    present: bool,
    backed_up: bool,
    dry_run: bool,
) -> Seq<ActionView> {
    match edit {
        Some(t) => if dry_run {
            seq![]
        } else {
            write_actions(file, present, backed_up, json::json_pretty(t))
        },
        None => seq![],
    }
}

/// How a change is told.
pub open spec fn change_summary(w: Wiring, changed: bool, dry_run: bool) -> Seq<char> {
    let done = match w {
        Wiring::Hook => "added SessionEnd hook for sonar"@,
        Wiring::Server => "registered sonar MCP server"@,
    };
    if !changed {
        "already installed"@
    } else if dry_run {
        "would: "@ + done + " (dry-run)"@
    } else {
        done
    }
}

/// Whether a file holds what is to be installed, so that nothing is left to do.
pub open spec fn settled(w: Wiring, raw: Option<Seq<char>>, bin: Seq<char>) -> bool {
    document_of(raw) matches Some(t) && wired(w, t, bin) == Ok::<Option<Tree>, ()>(None)
}

/// A document with a hook added has that hook, and the same holds of a server.
pub proof fn law_wired_once(w: Wiring, t: Tree, bin: Seq<char>)
    requires
        wired(w, t, bin) matches Ok(Some(_)),
    ensures
        wired(w, wired(w, t, bin)->Ok_0->0, bin) == Ok::<Option<Tree>, ()>(None),
{
    match w {
        Wiring::Hook => {
            let hooks = session_end_hooks(t)->0;
            let after = with_hook(t, hooks, bin);
            let list = hooks.push(hook_entry(bin));
            assert(session_end_hooks(after) == Some(list));
            lemma_hook_entry_runs(bin);
            assert(list[hooks.len() as int] == hook_entry(bin));
            assert(runs_program(list[hooks.len() as int], bin));
        },
        Wiring::Server => {
            let after = with_server(t, bin);
            assert(object_member(after, "mcpServers"@) =~= object_member(t, "mcpServers"@).insert(
                "sonar"@,
                server_entry(bin),
            ));
        },
    }
}

/// The hook that is added runs the program.
proof fn lemma_hook_entry_runs(bin: Seq<char>)
    ensures
        runs_program(hook_entry(bin), bin),
{
    let front = "P=$(jq -r .transcript_path 2>/dev/null) && [ -n \"$P\" ] && \""@;
    let command = hook_text(bin);
    let at = front.len() as int;
    assert(command.subrange(at, at + bin.len()) =~= bin);
    assert(text::occurs_at(command, bin, at));
    assert(entry_command(hook_entry(bin)) == Some(command));
}

/// What is installed does not nest deeper than a document that was read can.
proof fn lemma_wired_nests(w: Wiring, t: Tree, bin: Seq<char>, d: nat)
    requires
        wired(w, t, bin) matches Ok(Some(_)),
        json::nests_within(t, d + 6),
    ensures
        json::nests_within(wired(w, t, bin)->Ok_0->0, d + 6),
{
    json::lemma_object_nests(object_of(t), d + 5);
    match w {
        Wiring::Hook => {
            let hooks = session_end_hooks(t)->0;
            let list = hooks.push(hook_entry(bin));
            let run = Map::empty().insert("type"@, Tree::Text("command"@)).insert(
                "command"@,
                Tree::Text(hook_text(bin)),
            );
            json::lemma_object_nests(run, d);
            json::lemma_array_nests(seq![Tree::Object(run)], d + 1);
            json::lemma_object_nests(hook_entry(bin)->Object_0, d + 2);
            let old_hooks = object_member(t, "hooks"@);
            json::lemma_object_nests(old_hooks, d + 4);
            json::lemma_array_nests(hooks, d + 3);
            assert(json::nests_within(hook_entry(bin), d + 3));
            assert forall|i: int| 0 <= i < list.len() implies json::nests_within(
                #[trigger] list[i],
                d + 3,
            ) by {
                if i < hooks.len() {
                    assert(old_hooks.contains_key("SessionEnd"@));
                    assert(list[i] == hooks[i]);
                }
            }
            json::lemma_array_nests(list, d + 3);
            let new_hooks = old_hooks.insert("SessionEnd"@, Tree::Array(list));
            json::lemma_object_nests(new_hooks, d + 4);
            json::lemma_object_nests(
                object_of(t).insert("hooks"@, Tree::Object(new_hooks)),
                d + 5,
            );
        },
        Wiring::Server => {
            let args = seq![Tree::Text("mcp"@)];
            json::lemma_array_nests(args, d + 2);
            json::lemma_object_nests(server_entry(bin)->Object_0, d + 3);
            let old_servers = object_member(t, "mcpServers"@);
            json::lemma_object_nests(old_servers, d + 4);
            let servers = old_servers.insert("sonar"@, server_entry(bin));
            json::lemma_object_nests(servers, d + 4);
            json::lemma_object_nests(
                object_of(t).insert("mcpServers"@, Tree::Object(servers)),
                d + 5,
            );
        },
    }
}

/// How a change is told.
fn summarize(w: Wiring, changed: bool, dry_run: bool) -> (r: String)
    ensures
        r@ == change_summary(w, changed, dry_run),
{
    let done: &str = match w {
        Wiring::Hook => "added SessionEnd hook for sonar",
        Wiring::Server => "registered sonar MCP server",
    };
    if !changed {
        "already installed".to_string()
    } else if dry_run {
        let mut out = "would: ".to_string();
        out.append(done);
        out.append(" (dry-run)");
        out
    } else {
        done.to_string()
    }
}

/// The actions by which a file comes to hold a text.
fn plan_write(target: &Target, present: bool, backed_up: bool, content: String) -> (r: Vec<Action>)
    ensures
        action_views(r@) == write_actions(
            target@,
            present,
            backed_up,
            content@,
        ),
{
    let mut out: Vec<Action> = Vec::new();
    if !present {
        out.push(Action::CreateDir(target.dir.clone()));
    } else if !backed_up {
        out.push(Action::Copy(target.path(), target.backup_path()));
    }
    let ghost text_written = content@;
    out.push(Action::Write(target.temp_path(), content));
    out.push(Action::Rename(target.temp_path(), target.path()));
    assert(action_views(out@) =~= write_actions(
        target@,
        present,
        backed_up,
        text_written,
    ));
    out
}

/// What is to be done with a file that holds the given document.
pub fn plan_document(
    w: Wiring,
    target: &Target,
    doc: Json,
    present: bool,
    backed_up: bool,
    dry_run: bool,
    bin: &str,
) -> (r: Result<Change, InstallError>)
    ensures
        match r {
            Ok(c) => wired(w, json::tree(doc), bin@) matches Ok(edit) && c.summary@
                == change_summary(w, edit is Some, dry_run) && action_views(c.actions@)
                == change_actions(
                edit,
                target@,
                present,
                backed_up,
                dry_run,
            ),
            Err(e) => wired(w, json::tree(doc), bin@) is Err && e is SessionEndNotArray,
        },
        json::nests_within(json::tree(doc), json::MAX_DEPTH as nat) && !dry_run ==> (wired(
            w,
            json::tree(doc),
            bin@,
        ) matches Ok(Some(t)) ==> settled(w, Some(json::json_pretty(t)), bin@)),
{
    let ghost t = json::tree(doc);
    match wire(w, doc, bin) {
        Err(e) => Err(e),
        Ok(None) => {
            let none: Vec<Action> = Vec::new();
            assert(action_views(none@) =~= seq![]);
            Ok(Change { summary: summarize(w, false, dry_run), actions: none })
        },
        Ok(Some(j)) => {
            if dry_run {
                let none: Vec<Action> = Vec::new();
                assert(action_views(none@) =~= seq![]);
                return Ok(Change { summary: summarize(w, true, dry_run), actions: none });
            }
            let content = j.pretty();
            proof {
                if json::nests_within(t, json::MAX_DEPTH as nat) {
                    lemma_wired_nests(w, t, bin@, (json::MAX_DEPTH - 6) as nat);
                    law_wired_once(w, t, bin@);
                }
            }
            let actions = plan_write(target, present, backed_up, content);
            Ok(Change { summary: summarize(w, true, dry_run), actions })
        },
    }
}

/// A text that may be missing.
pub open spec fn raw_view(raw: Option<&str>) -> Option<Seq<char>> {
    match raw {
        Some(s) => Some(s@),
        None => None,
    }
}

/// What a file says.
fn read_document(raw: Option<&str>) -> (r: Result<Json, InstallError>)
    ensures
        match r {
            Ok(j) => document_of(raw_view(raw)) == Some(json::tree(j)) && json::nests_within(
                json::tree(j),
                json::MAX_DEPTH as nat,
            ),
            Err(e) => raw matches Some(s) && !text::is_blank(s@) && json::json_read(s@) is None && (
            e matches InstallError::NotJson(why) && why@ == json::json_error(s@)),
        },
{
    match raw {
        Some(s) => {
            if !blank(s) {
                return match Json::parse(s) {
                    Ok(j) => Ok(j),
                    Err(why) => Err(InstallError::NotJson(why)),
                };
            }
        },
        None => {},
    }
    let none: Vec<(String, Json)> = Vec::new();
    proof {
        json::lemma_object_nests(json::members(none@), (json::MAX_DEPTH - 1) as nat);
    }
    Ok(Json::Object(none))
}

/// The content of a file after a change was made, given what it held.
pub open spec fn content_after(raw: Option<Seq<char>>, edit: Option<Tree>) -> Option<Seq<char>> {
    match edit {
        Some(t) => Some(json::json_pretty(t)),
        None => raw,
    }
}

/// Whether a file that held the given text holds what is to be installed once its
/// change was made.
pub open spec fn settles(w: Wiring, raw: Option<Seq<char>>, bin: Seq<char>) -> bool {
    document_of(raw) matches Some(t) ==> wired(w, t, bin) matches Ok(edit) ==> settled(
        w,
        content_after(raw, edit),
        bin,
    )
}

/// What is to be done with a file, given what it holds and whether it was copied
/// before. Once it is done nothing is left to do: the file holds what was to be
/// installed.
pub fn plan_change(
    w: Wiring,
    target: &Target,
    raw: Option<&str>,
    backed_up: bool,
    dry_run: bool,
    bin: &str,
) -> (r: Result<Change, InstallError>)
    ensures
        match r {
            Ok(c) => document_of(raw_view(raw)) matches Some(t) && wired(w, t, bin@) matches Ok(
                edit,
            ) && c.summary@ == change_summary(w, edit is Some, dry_run) && action_views(c.actions@)
                == change_actions(
                edit,
                target@,
                raw is Some,
                backed_up,
                dry_run,
            ) && (!dry_run ==> settles(w, raw_view(raw), bin@)),
            Err(InstallError::NotJson(why)) => document_of(raw_view(raw)) is None && (
            raw matches Some(s) && why@ == json::json_error(s@)),
            Err(InstallError::SessionEndNotArray) => document_of(raw_view(raw)) matches Some(t)
                && wired(w, t, bin@) is Err,
            Err(InstallError::NoHome) => false,
        },
{
    match read_document(raw) {
        Ok(doc) => plan_document(w, target, doc, raw.is_some(), backed_up, dry_run, bin),
        Err(e) => Err(e),
    }
}

/// What to install where, in order: the hook, and then the server, unless they are
/// not wanted.
pub fn install_steps(opts: &InstallOpts, agent: &str, home: &Option<String>) -> (r: Result<
    Vec<(Wiring, Target)>,
    InstallError,
>)
    ensures
        match r {
            Ok(v) => steps_view(v@) == wanted_steps(
                *opts,
                agent@,
                match *home {
                    Some(h) => h@,
                    None => seq![],
                },
            ) && (home is None ==> opts.no_hook && (opts.no_mcp || opts.project_mcp is Some)),
            Err(e) => e is NoHome && home is None && (!opts.no_hook || (!opts.no_mcp
                && opts.project_mcp is None)),
        },
{
    let mut out: Vec<(Wiring, Target)> = Vec::new();
    if !opts.no_hook {
        match settings_path(agent, home) {
            Ok(t) => out.push((Wiring::Hook, t)),
            Err(e) => return Err(e),
        }
    }
    if !opts.no_mcp {
        match &opts.project_mcp {
            Some(dir) => out.push((Wiring::Server, project_mcp_path(dir.as_str()))),
            None => match global_mcp_path(agent, home) {
                Ok(t) => out.push((Wiring::Server, t)),
                Err(e) => return Err(e),
            },
        }
    }
    assert(steps_view(out@) =~= wanted_steps(
        *opts,
        agent@,
        match *home {
            Some(h) => h@,
            None => seq![],
        },
    ));
    Ok(out)
}

/// What to install where.
pub open spec fn steps_view(v: Seq<(Wiring, Target)>) -> Seq<(Wiring, Place)> {
    v.map_values(|s: (Wiring, Target)| (s.0, s.1@))
}

/// The step for the hook.
pub open spec fn hook_step(agent: Seq<char>, home: Seq<char>) -> (Wiring, Place) {
    (Wiring::Hook, settings_file(agent, home))
}

/// The step for the server.
pub open spec fn server_step(
    project: Option<Seq<char>>,
    agent: Seq<char>,
    home: Seq<char>,
) -> (Wiring, Place) {
    (Wiring::Server, server_file(project, agent, home))
}

/// What to install where under a home directory.
pub open spec fn wanted_steps(opts: InstallOpts, agent: Seq<char>, home: Seq<char>) -> Seq<
    (Wiring, Place),
> {
    (if opts.no_hook {
        seq![]
    } else {
        seq![hook_step(agent, home)]
    }) + (if opts.no_mcp {
        seq![]
    } else {
        seq![server_step(text::view_of(opts.project_mcp), agent, home)]
    })
}

/// The line that tells what became of a file.
pub fn report_line(w: Wiring, path: &str, summary: &str) -> (r: String)
    ensures
        r@ == (match w {
            Wiring::Hook => "hook  ("@,
            Wiring::Server => "mcp   ("@,
        }) + path@ + "): "@ + summary@,
{
    let mut out = match w {
        Wiring::Hook => "hook  (".to_string(),
        Wiring::Server => "mcp   (".to_string(),
    };
    out.append(path);
    out.append("): ");
    out.append(summary);
    out
}

/// The line that ends an installation, with the name of the product that has to be
/// restarted.
pub fn closing_line(dry_run: bool, product: &str) -> (r: String)
    ensures
        r@ == if dry_run {
            "\n(dry-run — nothing written. omit --dry-run to apply.)"@
        } else {
            "\nDone. Restart "@ + product@
                + " so the MCP server loads. The hook works without restart."@
        },
{
    if dry_run {
        "\n(dry-run — nothing written. omit --dry-run to apply.)".to_string()
    } else {
        let mut out = "\nDone. Restart ".to_string();
        out.append(product);
        out.append(" so the MCP server loads. The hook works without restart.");
        out
    }
}

/// The files to put back as they were: that of the hooks, and that of the servers
/// of a project or of all.
pub fn uninstall_targets(
    project: &Option<String>,
    agent: &str,
    home: &Option<String>,
) -> (r: Result<Vec<Target>, InstallError>)
    ensures
        match r {
            Ok(v) => home matches Some(h) && v@.len() == 2 && v@[0]@ == settings_file(agent@, h@)
                && v@[1]@ == server_file(text::view_of(*project), agent@, h@),
            Err(e) => home is None && e is NoHome,
        },
{
    let mut out: Vec<Target> = Vec::new();
    match settings_path(agent, home) {
        Ok(t) => out.push(t),
        Err(e) => return Err(e),
    }
    match project {
        Some(dir) => out.push(project_mcp_path(dir.as_str())),
        None => match global_mcp_path(agent, home) {
            Ok(t) => out.push(t),
            Err(e) => return Err(e),
        },
    }
    Ok(out)
}

/// How a file is put back as it was: from its copy, if it has one.
pub open spec fn restore_actions(file: Place, backed_up: bool) -> Seq<ActionView> {
    if backed_up {
        seq![ActionView::Copy(file.backup(), file.path())]
    } else {
        seq![]
    }
}

/// How a file is put back as it was, and how it is told.
pub fn plan_restore(target: &Target, backed_up: bool) -> (r: Change)
    ensures
        action_views(r.actions@) == restore_actions(target@, backed_up),
        r.summary@ == if backed_up {
            "restored "@ + target@.path()
        } else {
            "skip  ("@ + target@.path() + "): no backup"@
        },
{
    let mut actions: Vec<Action> = Vec::new();
    if backed_up {
        actions.push(Action::Copy(target.backup_path(), target.path()));
        assert(action_views(actions@) =~= restore_actions(target@, backed_up));
        let mut summary = "restored ".to_string();
        summary.append(target.path().as_str());
        Change { summary, actions }
    } else {
        assert(action_views(actions@) =~= restore_actions(target@, backed_up));
        let mut summary = "skip  (".to_string();
        summary.append(target.path().as_str());
        summary.append("): no backup");
        Change { summary, actions }
    }
}

/// The files after an action, by their paths.
pub open spec fn acted(files: Map<Seq<char>, Seq<char>>, a: ActionView) -> Map<
    Seq<char>,
    Seq<char>,
> {
    match a {
        ActionView::CreateDir(_) => files,
        ActionView::Copy(from, to) => files.insert(to, files[from]),
        ActionView::Write(path, content) => files.insert(path, content),
        ActionView::Rename(from, to) => files.insert(to, files[from]).remove(from),
    }
}

/// The files after actions, one after the other.
pub open spec fn acted_all(files: Map<Seq<char>, Seq<char>>, actions: Seq<ActionView>) -> Map<
    Seq<char>,
    Seq<char>,
>
    decreases actions.len(),
{
    if actions.len() == 0 {
        files
    } else {
        acted(acted_all(files, actions.drop_last()), actions.last())
    }
}

/// What a file holds, where it exists.
pub open spec fn held(files: Map<Seq<char>, Seq<char>>, path: Seq<char>) -> Option<Seq<char>> {
    if files.contains_key(path) {
        Some(files[path])
    } else {
        None
    }
}

/// The files after one step of an installation, unless it fails.
pub open spec fn after_step(
    files: Map<Seq<char>, Seq<char>>,
    step: (Wiring, Place),
    bin: Seq<char>,
    dry_run: bool,
) -> Option<Map<Seq<char>, Seq<char>>> {
    let (w, file) = step;
    match document_of(held(files, file.path())) {
        Some(t) => match wired(w, t, bin) {
            Ok(edit) => Some(
                acted_all(
                    files,
                    change_actions(
                        edit,
                        file,
                        files.contains_key(file.path()),
                        files.contains_key(file.backup()),
                        dry_run,
                    ),
                ),
            ),
            Err(_) => None,
        },
        None => None,
    }
}

/// The files after an installation, unless a step fails.
pub open spec fn after_install(
    files: Map<Seq<char>, Seq<char>>,
    steps: Seq<(Wiring, Place)>,
    bin: Seq<char>,
    dry_run: bool,
) -> Option<Map<Seq<char>, Seq<char>>>
    decreases steps.len(),
{
    if steps.len() == 0 {
        Some(files)
    } else {
        match after_install(files, steps.drop_last(), bin, dry_run) {
            Some(f) => after_step(f, steps.last(), bin, dry_run),
            None => None,
        }
    }
}

/// The files after one of them was put back as it was.
pub open spec fn after_restore(files: Map<Seq<char>, Seq<char>>, file: Place) -> Map<
    Seq<char>,
    Seq<char>,
> {
    acted_all(files, restore_actions(file, files.contains_key(file.backup())))
}

/// The files after an uninstallation.
pub open spec fn after_uninstall(
    files: Map<Seq<char>, Seq<char>>,
    project: Option<Seq<char>>,
    agent: Seq<char>,
    home: Seq<char>,
) -> Map<Seq<char>, Seq<char>> {
    after_restore(
        after_restore(files, settings_file(agent, home)),
        server_file(project, agent, home),
    )
}

/// Two names in one directory have two paths.
proof fn lemma_join_injective(dir: Seq<char>, a: Seq<char>, b: Seq<char>)
    requires
        a.len() > 0 && a[0] != '/',
        b.len() > 0 && b[0] != '/',
        paths::join_path(dir, a) == paths::join_path(dir, b),
    ensures
        a == b,
{
    let front = if dir.len() == 0 || dir.last() == '/' {
        dir
    } else {
        dir.push('/')
    };
    assert((front + a).skip(front.len() as int) =~= a);
    assert((front + b).skip(front.len() as int) =~= b);
}

/// Nothing after the last index of a character is that character.
proof fn lemma_after_last_index(s: Seq<char>, c: char)
    ensures
        -1 <= paths::last_index(s, c) < s.len(),
        forall|i: int| paths::last_index(s, c) < i < s.len() ==> #[trigger] s[i] != c,
    decreases s.len(),
{
    if s.len() > 0 && s.last() != c {
        lemma_after_last_index(s.drop_last(), c);
        assert forall|i: int| paths::last_index(s, c) < i < s.len() implies #[trigger] s[i]
            != c by {
            if i < s.len() - 1 {
                assert(s.drop_last()[i] == s[i]);
            }
        }
    }
}

/// The paths of a file, of its copy and of the file while it is written differ.
proof fn lemma_paths_differ(file: Place)
    requires
        file.plain(),
    ensures
        file.backup() != file.path(),
        file.temp() != file.path(),
        file.temp() != file.backup(),
{
    reveal_strlit(".pre-sonar");
    reveal_strlit(".json.sonar-tmp");
    let (x, y) = (".pre-sonar"@, ".json.sonar-tmp"@);
    assert(x.len() == 10 && x[9] == 'r');
    assert(y.len() == 15 && y[5] == '.' && y[14] == 'p');
    let name = file.name;
    let (backup, temp) = (name + x, temp_name(name));
    assert(backup.last() == 'r' && temp.last() == 'p');
    lemma_after_last_index(name, '.');
    assert(temp != name) by {
        let dot = paths::last_index(name, '.');
        if dot > 0 && temp == name {
            assert(temp[dot + 5] == y[5]);
        }
    }
    assert(backup[0] == name[0] && temp[0] == name[0]);
    if file.backup() == file.path() {
        lemma_join_injective(file.dir, backup, name);
    }
    if file.temp() == file.path() {
        lemma_join_injective(file.dir, temp, name);
    }
    if file.temp() == file.backup() {
        lemma_join_injective(file.dir, temp, backup);
    }
}

/// The files after a text was written to one of them.
proof fn lemma_written(files: Map<Seq<char>, Seq<char>>, file: Place, content: Seq<char>)
    requires
        file.plain(),
    ensures
        acted_all(
            files,
            write_actions(
                file,
                files.contains_key(file.path()),
                files.contains_key(file.backup()),
                content,
            ),
        ) == (if files.contains_key(file.path()) && !files.contains_key(file.backup()) {
            files.insert(file.backup(), files[file.path()])
        } else {
            files
        }).insert(file.path(), content).remove(file.temp()),
{
    lemma_paths_differ(file);
    let present = files.contains_key(file.path());
    let backed_up = files.contains_key(file.backup());
    let all = write_actions(file, present, backed_up, content);
    let last_two = seq![
        ActionView::Write(file.temp(), content),
        ActionView::Rename(file.temp(), file.path()),
    ];
    reveal_with_fuel(acted_all, 4);
    let front = all.drop_last().drop_last();
    assert(all.last() == last_two[1]);
    assert(all.drop_last().last() == last_two[0]);
    let start = if present && !backed_up {
        files.insert(file.backup(), files[file.path()])
    } else {
        files
    };
    if front.len() > 0 {
        assert(front.drop_last() =~= seq![]);
    }
    assert(acted_all(files, front) == start);
    assert(acted_all(files, all) =~= start.insert(file.path(), content).remove(file.temp()));
}

/// A dry run writes nothing: the files are the same after it as before.
pub proof fn law_dry_run_writes_nothing(
    files: Map<Seq<char>, Seq<char>>,
    steps: Seq<(Wiring, Place)>,
    bin: Seq<char>,
)
    ensures
        after_install(files, steps, bin, true) matches Some(f) ==> f == files,
    decreases steps.len(),
{
    if steps.len() > 0 {
        law_dry_run_writes_nothing(files, steps.drop_last(), bin);
    }
}

/// A step touches no file but the one that it is for, its copy and the file that is
/// written beside it; a copy that is there already stays as it is, and a new one
/// holds what the file held.
pub proof fn law_step_touches_only_its_file(
    files: Map<Seq<char>, Seq<char>>,
    step: (Wiring, Place),
    bin: Seq<char>,
    dry_run: bool,
    other: Seq<char>,
)
    requires
        step.1.plain(),
        after_step(files, step, bin, dry_run) is Some,
    ensures
        other != step.1.path() && other != step.1.backup() && other != step.1.temp() ==> held(
            after_step(files, step, bin, dry_run)->0,
            other,
        ) == held(files, other),
        files.contains_key(step.1.backup()) ==> held(
            after_step(files, step, bin, dry_run)->0,
            step.1.backup(),
        ) == held(files, step.1.backup()),
        !files.contains_key(step.1.backup()) && after_step(
            files,
            step,
            bin,
            dry_run,
        )->0.contains_key(step.1.backup()) ==> held(
            after_step(files, step, bin, dry_run)->0,
            step.1.backup(),
        ) == held(files, step.1.path()),
{
    let (w, file) = step;
    let t = document_of(held(files, file.path()))->0;
    lemma_paths_differ(file);
    match wired(w, t, bin)->Ok_0 {
        Some(after) => {
            lemma_written(files, file, json::json_pretty(after));
        },
        None => {},
    }
}

/// A file that a step changed has a copy of what it held before, unless it was not
/// there or had a copy already.
pub proof fn law_step_backs_up(
    files: Map<Seq<char>, Seq<char>>,
    step: (Wiring, Place),
    bin: Seq<char>,
    dry_run: bool,
)
    requires
        step.1.plain(),
        after_step(files, step, bin, dry_run) is Some,
        files.contains_key(step.1.path()),
        !files.contains_key(step.1.backup()),
        held(after_step(files, step, bin, dry_run)->0, step.1.path()) != held(files, step.1.path()),
    ensures
        held(after_step(files, step, bin, dry_run)->0, step.1.backup()) == held(files, step.1.path()),
{
    let (w, file) = step;
    let t = document_of(held(files, file.path()))->0;
    lemma_paths_differ(file);
    match wired(w, t, bin)->Ok_0 {
        Some(after) => {
            lemma_written(files, file, json::json_pretty(after));
        },
        None => {},
    }
}

/// Where a file already holds what is to be installed, a step leaves all files as
/// they are.
pub proof fn law_settled_step_writes_nothing(
    files: Map<Seq<char>, Seq<char>>,
    step: (Wiring, Place),
    bin: Seq<char>,
    dry_run: bool,
)
    requires
        settled(step.0, held(files, step.1.path()), bin),
    ensures
        after_step(files, step, bin, dry_run) == Some(files),
{
}

/// Where every file already holds what is to be installed, a whole installation
/// leaves all files as they are.
pub proof fn law_settled_install_writes_nothing(
    files: Map<Seq<char>, Seq<char>>,
    steps: Seq<(Wiring, Place)>,
    bin: Seq<char>,
    dry_run: bool,
)
    requires
        forall|i: int|
            0 <= i < steps.len() ==> settled(
                (#[trigger] steps[i]).0,
                held(files, steps[i].1.path()),
                bin,
            ),
    ensures
        after_install(files, steps, bin, dry_run) == Some(files),
    decreases steps.len(),
{
    if steps.len() > 0 {
        let rest = steps.drop_last();
        assert forall|i: int| 0 <= i < rest.len() implies settled(
            (#[trigger] rest[i]).0,
            held(files, rest[i].1.path()),
            bin,
        ) by {
            assert(rest[i] == steps[i]);
        }
        law_settled_install_writes_nothing(files, rest, bin, dry_run);
        assert(steps[steps.len() - 1] == steps.last());
        law_settled_step_writes_nothing(files, steps.last(), bin, dry_run);
    }
}

/// After a step that is no dry run its file holds what was to be installed, if the step
/// settles it.
proof fn lemma_step_settles(
    files: Map<Seq<char>, Seq<char>>,
    step: (Wiring, Place),
    bin: Seq<char>,
)
    requires
        step.1.plain(),
        after_step(files, step, bin, false) is Some,
        settles(step.0, held(files, step.1.path()), bin),
    ensures
        settled(step.0, held(after_step(files, step, bin, false)->0, step.1.path()), bin),
{
    let (w, file) = step;
    let t = document_of(held(files, file.path()))->0;
    lemma_paths_differ(file);
    match wired(w, t, bin)->Ok_0 {
        Some(after) => {
            lemma_written(files, file, json::json_pretty(after));
        },
        None => {},
    }
}

/// To install a second time changes nothing: all files are then as the first
/// installation left them. Each step settles its file, which is what planning it
/// ensures.
pub proof fn law_second_install_changes_nothing(
    files: Map<Seq<char>, Seq<char>>,
    opts: InstallOpts,
    agent: Seq<char>,
    home: Seq<char>,
    bin: Seq<char>,
    dry_run: bool,
)
    requires
        !agent.contains('/'),
        after_install(files, wanted_steps(opts, agent, home), bin, false) is Some,
        !opts.no_hook ==> settles(
            Wiring::Hook,
            held(files, settings_file(agent, home).path()),
            bin,
        ),
        !opts.no_mcp ==> settles(
            Wiring::Server,
            held(files, server_file(text::view_of(opts.project_mcp), agent, home).path()),
            bin,
        ),
    ensures
        ({
            let steps = wanted_steps(opts, agent, home);
            let installed = after_install(files, steps, bin, false)->0;
            after_install(installed, steps, bin, dry_run) == Some(installed)
        }),
{
    let project = text::view_of(opts.project_mcp);
    let steps = wanted_steps(opts, agent, home);
    let (x, y) = (hook_step(agent, home), server_step(project, agent, home));
    let (a, b) = (x.1, y.1);
    lemma_targets_differ(project, agent, home);
    lemma_config_names(project, agent, home);
    assert(touches(b, b.path()) && touches(a, a.path()));
    assert(!touches(b, a.path()) && !touches(a, b.path()));
    reveal_with_fuel(after_install, 3);
    let installed = after_install(files, steps, bin, false)->0;
    if !opts.no_hook && !opts.no_mcp {
        assert(steps.last() == y && steps.drop_last() =~= seq![x]);
        assert(seq![x].drop_last() =~= seq![]);
        let mid = after_step(files, x, bin, false)->0;
        lemma_step_settles(files, x, bin);
        law_step_touches_only_its_file(files, x, bin, false, b.path());
        lemma_step_settles(mid, y, bin);
        law_step_touches_only_its_file(mid, y, bin, false, a.path());
    } else if !opts.no_hook {
        assert(steps.last() == x && steps.drop_last() =~= seq![]);
        lemma_step_settles(files, x, bin);
    } else if !opts.no_mcp {
        assert(steps.last() == y && steps.drop_last() =~= seq![]);
        lemma_step_settles(files, y, bin);
    }
    assert forall|i: int| 0 <= i < steps.len() implies settled(
        (#[trigger] steps[i]).0,
        held(installed, steps[i].1.path()),
        bin,
    ) by {
        assert(steps[i] == x || steps[i] == y);
        if i < steps.len() - 1 {
            assert(steps[i] == x);
        } else {
            assert(steps[i] == steps.last());
        }
    }
    law_settled_install_writes_nothing(installed, steps, bin, dry_run);
}

/// The paths that a step can touch.
pub open spec fn touches(file: Place, p: Seq<char>) -> bool {
    p == file.path() || p == file.backup() || p == file.temp()
}

/// The names of the files that are configured.
proof fn lemma_config_names(project: Option<Seq<char>>, agent: Seq<char>, home: Seq<char>)
    ensures
        settings_file(agent, home).plain(),
        server_file(project, agent, home).plain(),
        settings_file(agent, home).backup() == settings_file(agent, home).path() + ".pre-sonar"@,
        settings_file(agent, home).temp() == settings_file(agent, home).path() + ".sonar-tmp"@,
        server_file(project, agent, home).backup() == server_file(project, agent, home).path()
            + ".pre-sonar"@,
        server_file(project, agent, home).temp() == server_file(project, agent, home).path()
            + ".sonar-tmp"@,
{
    reveal_strlit("settings.json");
    reveal_strlit(".mcp.json");
    reveal_strlit(".json");
    assert("settings.json"@.take(8) + ".json"@ =~= "settings.json"@);
    assert(".mcp.json"@.take(4) + ".json"@ =~= ".mcp.json"@);
    assert("settings.json"@[0] == 's' && ".mcp.json"@[0] == '.');
    lemma_json_name(settings_file(agent, home), "settings.json"@.take(8));
    match project {
        Some(dir) => {
            lemma_json_name(server_file(project, agent, home), ".mcp.json"@.take(4));
        },
        None => {
            lemma_json_name(server_file(project, agent, home), paths::agent_dir(agent));
        },
    }
}

/// The paths of the copy and of the file while it is written, of a file whose name
/// ends in `.json`.
proof fn lemma_json_name(file: Place, front: Seq<char>)
    requires
        file.plain(),
        front.len() > 0,
        file.name == front + ".json"@,
    ensures
        file.backup() == file.path() + ".pre-sonar"@,
        file.temp() == file.path() + ".sonar-tmp"@,
{
    reveal_strlit(".json");
    reveal_strlit(".sonar-tmp");
    reveal_strlit(".json.sonar-tmp");
    let name = file.name;
    let n = front.len() as int;
    assert(".json"@.len() == 5 && ".json"@[0] == '.' && ".json"@[1] != '.' && ".json"@[2] != '.'
        && ".json"@[3] != '.' && ".json"@[4] != '.');
    lemma_after_last_index(name, '.');
    let dot = paths::last_index(name, '.');
    assert(dot == n) by {
        if dot < n {
            assert(name[n] == ".json"@[0]);
        } else if dot > n {
            lemma_last_index_is(name, '.');
            assert(name[dot] == ".json"@[dot - n]);
        }
    }
    assert(name.take(n) =~= front);
    assert(".json"@ + ".sonar-tmp"@ =~= ".json.sonar-tmp"@);
    assert(temp_name(name) =~= name + ".sonar-tmp"@);
    assert(file.backup() =~= file.path() + ".pre-sonar"@);
    assert(file.temp() =~= file.path() + ".sonar-tmp"@);
}

/// What stands at the last index of a character is that character.
proof fn lemma_last_index_is(s: Seq<char>, c: char)
    ensures
        paths::last_index(s, c) >= 0 ==> s[paths::last_index(s, c)] == c,
    decreases s.len(),
{
    if s.len() > 0 && s.last() != c {
        lemma_last_index_is(s.drop_last(), c);
        lemma_after_last_index(s.drop_last(), c);
    }
}

/// Two files with different paths whose copies are named after them have different
/// copies too.
proof fn lemma_apart(a: Place, b: Place)
    requires
        a.path() != b.path(),
        a.path().len() > 0 && a.path().last() == 'n',
        b.path().len() > 0 && b.path().last() == 'n',
        a.backup() == a.path() + ".pre-sonar"@,
        b.backup() == b.path() + ".pre-sonar"@,
        a.temp() == a.path() + ".sonar-tmp"@,
        b.temp() == b.path() + ".sonar-tmp"@,
    ensures
        forall|p: Seq<char>| !(touches(a, p) && #[trigger] touches(b, p)),
{
    let (x, y) = (a.path(), b.path());
    reveal_strlit(".pre-sonar");
    reveal_strlit(".sonar-tmp");
    assert(".pre-sonar"@.len() == 10 && ".pre-sonar"@[9] == 'r');
    assert(".sonar-tmp"@.len() == 10 && ".sonar-tmp"@[9] == 'p');
    assert(a.backup().last() == 'r' && b.backup().last() == 'r');
    assert(a.temp().last() == 'p' && b.temp().last() == 'p');
    assert(a.backup().take(x.len() as int) =~= x);
    assert(b.backup().take(y.len() as int) =~= y);
    assert(a.temp().take(x.len() as int) =~= x);
    assert(b.temp().take(y.len() as int) =~= y);
    if a.backup() == b.backup() {
        assert(a.backup().len() == x.len() + 10 && b.backup().len() == y.len() + 10);
    }
    if a.temp() == b.temp() {
        assert(a.temp().len() == x.len() + 10 && b.temp().len() == y.len() + 10);
    }
}

/// The file of an agent's hooks and that of its servers are different files, and so
/// are their copies.
proof fn lemma_targets_differ(project: Option<Seq<char>>, agent: Seq<char>, home: Seq<char>)
    requires
        !agent.contains('/'),
    ensures
        forall|p: Seq<char>|
            !(touches(settings_file(agent, home), p) && #[trigger] touches(
                server_file(project, agent, home),
                p,
            )),
{
    lemma_files_differ(project, agent, home);
    lemma_config_names(project, agent, home);
    lemma_apart(settings_file(agent, home), server_file(project, agent, home));
}

proof fn lemma_files_differ(project: Option<Seq<char>>, agent: Seq<char>, home: Seq<char>)
    requires
        !agent.contains('/'),
    ensures
        settings_file(agent, home).path() != server_file(project, agent, home).path(),
        settings_file(agent, home).path().len() > 0,
        settings_file(agent, home).path().last() == 'n',
        server_file(project, agent, home).path().len() > 0,
        server_file(project, agent, home).path().last() == 'n',
{
    reveal_strlit("settings.json");
    reveal_strlit(".mcp.json");
    reveal_strlit(".json");
    let s = "settings.json"@;
    assert(s.len() == 13 && s[0] == 's' && s[1] == 'e' && s[2] == 't' && s[3] == 't' && s[4] == 'i'
        && s[5] == 'n' && s[6] == 'g' && s[7] == 's' && s[12] == 'n');
    let m = ".mcp.json"@;
    assert(m.len() == 9 && m[0] == '.' && m[3] == 'p' && m[8] == 'n');
    let j = ".json"@;
    assert(j.len() == 5 && j[0] == '.' && j[4] == 'n');
    let dir = paths::join_path(home, paths::agent_dir(agent));
    assert(dir.len() > 0);
    assert(dir.last() != '/') by {
        if agent.len() > 0 {
            assert(agent.contains(agent.last()));
            assert(dir.last() == agent.last());
        } else {
            assert(dir.last() == '.');
        }
    }
    let a = settings_file(agent, home).path();
    assert(a =~= dir.push('/') + s);
    let n = a.len() as int;
    assert(a[n - 14] == '/');
    assert forall|i: int| 0 <= i < 13 implies a[n - 13 + i] == s[i] by {}
    let b = server_file(project, agent, home).path();
    match project {
        Some(d) => {
            assert(b[b.len() - 6] == 'p');
            assert(a[n - 13 + 7] == s[7]);
            assert(b.last() == 'n');
        },
        None => {
            let name = paths::agent_dir(agent) + j;
            assert(name.len() == agent.len() + 6 && name[0] == '.');
            assert(b.last() == 'n');
            if a == b {
                let q = n - name.len();
                assert forall|i: int| 0 <= i < name.len() implies b[q + i] == name[i] by {}
                assert(b[q + 0] == '.');
                if q > n - 13 {
                    let i = q - (n - 13);
                    assert(1 <= i <= 7);
                    assert(a[n - 13 + i] == s[i]);
                } else if q == n - 13 {
                    assert(a[n - 13 + 0] == s[0]);
                } else {
                    let i = n - 14 - q;
                    assert(b[q + i] == name[i]);
                    if i > 0 {
                        assert(name[i] == agent[i - 1]);
                        assert(agent.contains(agent[i - 1]));
                    }
                }
            }
        },
    }
}

/// A step and a later restoration, with nothing in between, give back a file that
/// was there and had no copy.
proof fn lemma_step_restored(
    files: Map<Seq<char>, Seq<char>>,
    later: Map<Seq<char>, Seq<char>>,
    step: (Wiring, Place),
    bin: Seq<char>,
    dry_run: bool,
)
    requires
        step.1.plain(),
        after_step(files, step, bin, dry_run) is Some,
        files.contains_key(step.1.path()),
        !files.contains_key(step.1.backup()),
        held(later, step.1.path()) == held(after_step(files, step, bin, dry_run)->0, step.1.path()),
        held(later, step.1.backup()) == held(
            after_step(files, step, bin, dry_run)->0,
            step.1.backup(),
        ),
    ensures
        held(after_restore(later, step.1), step.1.path()) == held(files, step.1.path()),
{
    let (w, file) = step;
    let t = document_of(held(files, file.path()))->0;
    lemma_paths_differ(file);
    lemma_restored(later, file);
    match wired(w, t, bin)->Ok_0 {
        Some(after) => {
            lemma_written(files, file, json::json_pretty(after));
        },
        None => {},
    }
}

/// The files after one of them was put back.
proof fn lemma_restored(files: Map<Seq<char>, Seq<char>>, file: Place)
    ensures
        after_restore(files, file) == if files.contains_key(file.backup()) {
            files.insert(file.path(), files[file.backup()])
        } else {
            files
        },
{
    let list = restore_actions(file, files.contains_key(file.backup()));
    reveal_with_fuel(acted_all, 2);
    if list.len() > 0 {
        assert(list.drop_last() =~= seq![]);
    }
}

/// The end of a path is the name that was joined to it, with a slash in front if there is
/// anything.
proof fn lemma_path_end(dir: Seq<char>, name: Seq<char>)
    requires
        name.len() > 0,
        name[0] != '/',
    ensures
        ({
            let p = paths::join_path(dir, name);
            &&& p.len() >= name.len()
            &&& forall|i: int| 0 <= i < name.len() ==> p[p.len() - name.len() + i] == #[trigger] name[i]
            &&& p.len() > name.len() ==> p[p.len() - name.len() - 1] == '/'
        }),
{
}

/// The server file of a project and the one of all are different files, unless the agent
/// is named like the file of a project.
proof fn lemma_server_paths_differ(dir: Seq<char>, agent: Seq<char>, home: Seq<char>)
    requires
        !agent.contains('/'),
        agent != "mcp"@,
    ensures
        server_file(Some(dir), agent, home).path() != server_file(None, agent, home).path(),
{
    let (a, b) = (server_file(Some(dir), agent, home), server_file(None, agent, home));
    let (x, y) = (a.path(), b.path());
    let (m, n) = (a.name, b.name);
    reveal_strlit(".mcp.json");
    reveal_strlit(".json");
    reveal_strlit("mcp");
    assert(m.len() == 9 && m[0] == '.' && m[1] == 'm' && m[2] == 'c' && m[3] == 'p');
    assert forall|i: int| 0 <= i < 9 implies m[i] != '/' by {}
    assert(n.len() == agent.len() + 6 && n[0] == '.');
    assert forall|i: int| 0 <= i < n.len() implies n[i] != '/' by {
        if 1 <= i < agent.len() + 1 {
            assert(n[i] == agent[i - 1]);
            assert(agent.contains(agent[i - 1]));
        }
    }
    lemma_path_end(a.dir, m);
    lemma_path_end(b.dir, n);
    if x == y {
        if n.len() > 9 {
            assert(y[y.len() - n.len() + (n.len() - 10)] == n[n.len() - 10]);
        } else if n.len() < 9 {
            assert(x[x.len() - 9 + (8 - n.len())] == m[8 - n.len()]);
        } else {
            assert forall|i: int| 0 <= i < 3 implies agent[i] == "mcp"@[i] by {
                assert(y[y.len() - 9 + (i + 1)] == n[i + 1]);
                assert(x[x.len() - 9 + (i + 1)] == m[i + 1]);
                assert(n[i + 1] == agent[i]);
            }
            assert(agent =~= "mcp"@);
        }
    }
}

/// The server file of a project and the one of all have different copies too.
proof fn lemma_servers_differ(dir: Seq<char>, agent: Seq<char>, home: Seq<char>)
    requires
        !agent.contains('/'),
        agent != "mcp"@,
    ensures
        forall|p: Seq<char>|
            !(touches(server_file(Some(dir), agent, home), p) && #[trigger] touches(
                server_file(None, agent, home),
                p,
            )),
{
    lemma_server_paths_differ(dir, agent, home);
    lemma_config_names(Some(dir), agent, home);
    lemma_config_names(None, agent, home);
    lemma_files_differ(Some(dir), agent, home);
    lemma_files_differ(None, agent, home);
    lemma_apart(server_file(Some(dir), agent, home), server_file(None, agent, home));
}

/// An installation leaves a path as it was that none of its steps can touch.
proof fn lemma_install_leaves(
    files: Map<Seq<char>, Seq<char>>,
    steps: Seq<(Wiring, Place)>,
    bin: Seq<char>,
    dry_run: bool,
    p: Seq<char>,
)
    requires
        after_install(files, steps, bin, dry_run) is Some,
        forall|i: int|
            0 <= i < steps.len() ==> (#[trigger] steps[i]).1.plain() && !touches(steps[i].1, p),
    ensures
        held(after_install(files, steps, bin, dry_run)->0, p) == held(files, p),
    decreases steps.len(),
{
    if steps.len() > 0 {
        let rest = steps.drop_last();
        assert forall|i: int| 0 <= i < rest.len() implies (#[trigger] rest[i]).1.plain()
            && !touches(rest[i].1, p) by {
            assert(rest[i] == steps[i]);
        }
        assert(steps[steps.len() - 1] == steps.last());
        lemma_install_leaves(files, rest, bin, dry_run, p);
        let mid = after_install(files, rest, bin, dry_run)->0;
        law_step_touches_only_its_file(mid, steps.last(), bin, dry_run, p);
    }
}

/// What is not to be installed is left as it was, with its copy: the file of the hooks
/// where no hook is wanted, that of the servers where no server is, and that of all
/// servers where the server is for a project. (An agent named like the file of a project
/// would keep its servers in a file of that name.) And so is every other file.
pub proof fn law_install_leaves_the_rest(
    files: Map<Seq<char>, Seq<char>>,
    opts: InstallOpts,
    agent: Seq<char>,
    home: Seq<char>,
    bin: Seq<char>,
    p: Seq<char>,
)
    requires
        !agent.contains('/'),
        after_install(files, wanted_steps(opts, agent, home), bin, opts.dry_run) is Some,
        ({
            let project = text::view_of(opts.project_mcp);
            let (a, b) = (settings_file(agent, home), server_file(project, agent, home));
            ||| opts.no_hook && touches(a, p)
            ||| opts.no_mcp && touches(b, p)
            ||| opts.project_mcp is Some && agent != "mcp"@ && touches(
                server_file(None, agent, home),
                p,
            )
            ||| !touches(a, p) && !touches(b, p)
        }),
    ensures
        held(after_install(files, wanted_steps(opts, agent, home), bin, opts.dry_run)->0, p)
            == held(files, p),
{
    let project = text::view_of(opts.project_mcp);
    let steps = wanted_steps(opts, agent, home);
    let (a, b) = (settings_file(agent, home), server_file(project, agent, home));
    lemma_targets_differ(project, agent, home);
    lemma_targets_differ(None, agent, home);
    lemma_config_names(project, agent, home);
    if opts.project_mcp is Some && agent != "mcp"@ {
        lemma_servers_differ(project->0, agent, home);
    }
    assert(touches(b, p) || !touches(b, p));
    assert(touches(server_file(None, agent, home), p) || !touches(
        server_file(None, agent, home),
        p,
    ));
    assert forall|i: int| 0 <= i < steps.len() implies (#[trigger] steps[i]).1.plain() && !touches(
        steps[i].1,
        p,
    ) by {
        assert(steps[i] == hook_step(agent, home) && !opts.no_hook || steps[i] == server_step(
            project,
            agent,
            home,
        ) && !opts.no_mcp);
    }
    lemma_install_leaves(files, steps, bin, opts.dry_run, p);
}

/// To uninstall after an installation puts every configuration file that was there
/// back exactly as it was, if it had no copy from an earlier installation. (A file
/// that was not there stays, with what was installed.)
pub proof fn law_uninstall_restores(
    files: Map<Seq<char>, Seq<char>>,
    opts: InstallOpts,
    agent: Seq<char>,
    home: Seq<char>,
    bin: Seq<char>,
)
    requires
        !agent.contains('/'),
        after_install(files, wanted_steps(opts, agent, home), bin, opts.dry_run) is Some,
        !files.contains_key(settings_file(agent, home).backup()),
        !files.contains_key(
            server_file(text::view_of(opts.project_mcp), agent, home).backup(),
        ),
    ensures
        ({
            let project = text::view_of(opts.project_mcp);
            let installed = after_install(files, wanted_steps(opts, agent, home), bin, opts.dry_run)->0;
            let f = after_uninstall(installed, project, agent, home);
            let (a, b) = (settings_file(agent, home), server_file(project, agent, home));
            &&& files.contains_key(a.path()) ==> held(f, a.path()) == held(files, a.path())
            &&& files.contains_key(b.path()) ==> held(f, b.path()) == held(files, b.path())
        }),
{
    let project = text::view_of(opts.project_mcp);
    let steps = wanted_steps(opts, agent, home);
    let a = settings_file(agent, home);
    let b = server_file(project, agent, home);
    let dry = opts.dry_run;
    lemma_targets_differ(project, agent, home);
    lemma_config_names(project, agent, home);
    lemma_paths_differ(a);
    lemma_paths_differ(b);
    assert(!touches(b, a.path()) && !touches(b, a.backup()));
    assert(touches(b, b.path()) && touches(b, b.backup()));
    reveal_with_fuel(after_install, 3);
    let mid = if opts.no_hook {
        files
    } else {
        after_step(files, hook_step(agent, home), bin, dry)->0
    };
    let installed = if opts.no_mcp {
        mid
    } else {
        after_step(mid, server_step(project, agent, home), bin, dry)->0
    };
    assert(steps.len() == (if opts.no_hook {
        0int
    } else {
        1int
    }) + (if opts.no_mcp {
        0int
    } else {
        1int
    }));
    if !opts.no_mcp {
        assert(steps.last() == server_step(project, agent, home));
        if !opts.no_hook {
            assert(steps.drop_last() =~= seq![hook_step(agent, home)]);
            assert(steps.drop_last().drop_last() =~= seq![]);
        } else {
            assert(steps.drop_last() =~= seq![]);
        }
    } else if !opts.no_hook {
        assert(steps.last() == hook_step(agent, home));
        assert(steps.drop_last() =~= seq![]);
    }
    assert(after_install(files, steps, bin, dry) == Some(installed));
    if !opts.no_hook {
        law_step_touches_only_its_file(files, hook_step(agent, home), bin, dry, b.path());
        law_step_touches_only_its_file(files, hook_step(agent, home), bin, dry, b.backup());
    }
    if !opts.no_mcp {
        law_step_touches_only_its_file(mid, server_step(project, agent, home), bin, dry, a.path());
        law_step_touches_only_its_file(mid, server_step(project, agent, home), bin, dry, a.backup());
    }
    lemma_restored(installed, a);
    let first = after_restore(installed, a);
    lemma_restored(first, b);
    if files.contains_key(a.path()) && !opts.no_hook {
        lemma_step_restored(files, installed, hook_step(agent, home), bin, dry);
    }
    if files.contains_key(b.path()) && !opts.no_mcp {
        lemma_step_restored(mid, first, server_step(project, agent, home), bin, dry);
    }
}

/// To uninstall twice is to uninstall once.
pub proof fn law_uninstall_is_idempotent(
    files: Map<Seq<char>, Seq<char>>,
    project: Option<Seq<char>>,
    agent: Seq<char>,
    home: Seq<char>,
)
    requires
        !agent.contains('/'),
    ensures
        after_uninstall(after_uninstall(files, project, agent, home), project, agent, home)
            == after_uninstall(files, project, agent, home),
{
    let a = settings_file(agent, home);
    let b = server_file(project, agent, home);
    lemma_targets_differ(project, agent, home);
    lemma_config_names(project, agent, home);
    lemma_paths_differ(a);
    lemma_paths_differ(b);
    assert(!touches(b, a.path()) && !touches(b, a.backup()));
    assert(touches(b, b.path()) && touches(b, b.backup()));
    let f1 = after_restore(files, a);
    let f2 = after_restore(f1, b);
    let f3 = after_restore(f2, a);
    lemma_restored(files, a);
    lemma_restored(f1, b);
    lemma_restored(f2, a);
    lemma_restored(f3, b);
    assert(f3 =~= f2);
    assert(after_restore(f3, b) =~= f2);
}

/// Adding the hook keeps everything else: all other members of the document, all
/// hooks for other events, and the hooks for the end of a session, which stay in
/// front of the new one.
pub proof fn law_hook_keeps_the_rest(t: Tree, bin: Seq<char>, name: Seq<char>, event: Seq<char>)
    requires
        wired(Wiring::Hook, t, bin) matches Ok(Some(_)),
    ensures
        ({
            let after = wired(Wiring::Hook, t, bin)->Ok_0->0;
            &&& name != "hooks"@ ==> json::member(after, name) == json::member(t, name)
            &&& event != "SessionEnd"@ ==> json::member(
                Tree::Object(object_member(after, "hooks"@)),
                event,
            ) == json::member(Tree::Object(object_member(t, "hooks"@)), event)
            &&& session_end_hooks(after) == Some(session_end_hooks(t)->0.push(hook_entry(bin)))
        }),
{
    let hooks = session_end_hooks(t)->0;
    let after = with_hook(t, hooks, bin);
    assert(session_end_hooks(after) == Some(hooks.push(hook_entry(bin))));
}

/// Registering the server keeps everything else: all other members of the document
/// and all other servers.
pub proof fn law_server_keeps_the_rest(t: Tree, bin: Seq<char>, name: Seq<char>, server: Seq<char>)
    requires
        wired(Wiring::Server, t, bin) matches Ok(Some(_)),
    ensures
        ({
            let after = wired(Wiring::Server, t, bin)->Ok_0->0;
            &&& name != "mcpServers"@ ==> json::member(after, name) == json::member(t, name)
            &&& server != "sonar"@ ==> json::member(
                Tree::Object(object_member(after, "mcpServers"@)),
                server,
            ) == json::member(Tree::Object(object_member(t, "mcpServers"@)), server)
            &&& server_registered(after, bin)
        }),
{
    law_wired_once(Wiring::Server, t, bin);
}

/// Whether a text is the first command of an entry of the hooks for the end of a session,
/// by where it stands in a document: `command` in the first of the `hooks` of the entry, or
/// in what is named as the first.
pub open spec fn session_end_command(t: Tree, i: int, command: Seq<char>) -> bool {
    t matches Tree::Object(root) && root.contains_key("hooks"@) && (
    root["hooks"@] matches Tree::Object(events) && events.contains_key("SessionEnd"@) && (
    events["SessionEnd"@] matches Tree::Array(entries) && 0 <= i < entries.len() && (
    entries[i] matches Tree::Object(entry) && entry.contains_key("hooks"@) && match entry["hooks"@] {
        Tree::Array(list) => list.len() > 0 && (list[0] matches Tree::Object(first)
            && first.contains_key("command"@) && first["command"@] == Tree::Text(command)),
        Tree::Object(named) => named.contains_key("0"@) && (named["0"@] matches Tree::Object(first)
            && first.contains_key("command"@) && first["command"@] == Tree::Text(command)),
        _ => false,
    })))
}

/// Whether the end of a session runs a program: one of the first commands of its hooks
/// holds the program's path.
pub open spec fn runs_at_session_end(t: Tree, bin: Seq<char>) -> bool {
    exists|i: int, command: Seq<char>| #[trigger]
        session_end_command(t, i, command) && text::occurs(command, bin)
}

/// Whether a document has a search server under its name: the program, with one argument
/// and nothing else.
pub open spec fn serves(t: Tree, bin: Seq<char>) -> bool {
    t matches Tree::Object(root) && root.contains_key("mcpServers"@) && (
    root["mcpServers"@] matches Tree::Object(servers) && servers.contains_key("sonar"@) && (
    servers["sonar"@] matches Tree::Object(entry) && entry.dom() == set!["command"@, "args"@]
        && entry["command"@] == Tree::Text(bin) && entry["args"@] == Tree::Array(
        seq![Tree::Text("mcp"@)],
    )))
}

/// The hook counts as installed exactly where one of the first commands of the hooks for
/// the end of a session holds the program's path. Where none does, the document changes,
/// and it then has such a command, behind the hooks that it had. It cannot be changed only
/// where there is something other than a list in the place of those hooks.
pub proof fn law_hook_is_told_by_its_command(t: Tree, bin: Seq<char>)
    ensures
        wired(Wiring::Hook, t, bin) == Ok::<Option<Tree>, ()>(None) <==> runs_at_session_end(t, bin),
        wired(Wiring::Hook, t, bin) matches Ok(Some(u)) ==> u != t && runs_at_session_end(u, bin),
        wired(Wiring::Hook, t, bin) is Err <==> (t matches Tree::Object(root) && root.contains_key(
            "hooks"@,
        ) && (root["hooks"@] matches Tree::Object(events) && events.contains_key("SessionEnd"@)
            && !(events["SessionEnd"@] is Array))),
{
    lemma_runs_at_session_end(t, bin);
    if let Ok(Some(u)) = wired(Wiring::Hook, t, bin) {
        law_wired_once(Wiring::Hook, t, bin);
        lemma_runs_at_session_end(u, bin);
    }
}

/// The two ways to tell that the hook is installed agree.
proof fn lemma_runs_at_session_end(t: Tree, bin: Seq<char>)
    ensures
        wired(Wiring::Hook, t, bin) == Ok::<Option<Tree>, ()>(None) <==> runs_at_session_end(t, bin),
{
    if wired(Wiring::Hook, t, bin) == Ok::<Option<Tree>, ()>(None) {
        let hooks = session_end_hooks(t)->0;
        let i = choose|i: int| 0 <= i < hooks.len() && runs_program(#[trigger] hooks[i], bin);
        let command = entry_command(hooks[i])->0;
        assert(session_end_command(t, i, command));
    }
    if runs_at_session_end(t, bin) {
        let (i, command) = choose|i: int, command: Seq<char>| #[trigger]
            session_end_command(t, i, command) && text::occurs(command, bin);
        let hooks = session_end_hooks(t)->0;
        assert(entry_command(hooks[i]) == Some(command));
        assert(runs_program(hooks[i], bin));
    }
}

/// The command of a hook that was added names the program in quotes between the same two
/// texts whatever the program is, and it hands the program the transcript to index.
pub proof fn law_added_hook_indexes_the_transcript(t: Tree, bin: Seq<char>, other: Seq<char>)
    requires
        wired(Wiring::Hook, t, bin) matches Ok(Some(_)),
    ensures
        ({
            let after = wired(Wiring::Hook, t, bin)->Ok_0->0;
            let entries = after->Object_0["hooks"@]->Object_0["SessionEnd"@]->Array_0;
            let i = entries.len() - 1;
            let entry = entries[i]->Object_0;
            &&& session_end_command(after, i, hook_text(bin))
            &&& entry.dom() == set!["matcher"@, "hooks"@]
            &&& entry["matcher"@] == Tree::Text(Seq::empty())
            &&& entry["hooks"@]->Array_0.len() == 1
            &&& entry["hooks"@]->Array_0[0]->Object_0.dom() == set!["type"@, "command"@]
            &&& entry["hooks"@]->Array_0[0]->Object_0["type"@] == Tree::Text("command"@)
        }),
        text::occurs(hook_text(bin), seq!['"'] + bin + seq!['"'] + " index --file "@),
        exists|front: Seq<char>, back: Seq<char>|
            hook_text(bin) == #[trigger] (front + bin + back) && hook_text(other) == front + other + back,
{
    let hooks = session_end_hooks(t)->0;
    let after = with_hook(t, hooks, bin);
    let list = hooks.push(hook_entry(bin));
    let i = list.len() - 1;
    let entry = hook_entry(bin)->Object_0;
    assert(list[i] == hook_entry(bin));
    lemma_member_names();
    assert(entry.dom() =~= set!["matcher"@, "hooks"@]);
    let first = entry["hooks"@]->Array_0[0]->Object_0;
    assert(first.dom() =~= set!["type"@, "command"@]);
    assert(session_end_command(after, i, hook_text(bin)));
    let front = "P=$(jq -r .transcript_path 2>/dev/null) && [ -n \"$P\" ] && \""@;
    let back = "\" index --file \"$P\" >/dev/null 2>&1 || true"@;
    assert(hook_text(bin) == front + bin + back);
    assert(hook_text(other) == front + other + back);
    reveal_strlit("P=$(jq -r .transcript_path 2>/dev/null) && [ -n \"$P\" ] && \"");
    reveal_strlit("\" index --file \"$P\" >/dev/null 2>&1 || true");
    reveal_strlit(" index --file ");
    let call = " index --file "@;
    assert(front.last() == '"');
    assert(back.subrange(0, 15) =~= seq!['"'] + call);
    let part = seq!['"'] + bin + seq!['"'] + call;
    let at = front.len() - 1;
    assert forall|k: int| 0 <= k < part.len() implies part[k] == hook_text(bin).subrange(
        at,
        at + part.len(),
    )[k] by {
        if k > bin.len() {
            assert(part[k] == back.subrange(0, 15)[k - 1 - bin.len()]);
        }
    }
    assert(hook_text(bin).subrange(at, at + part.len()) =~= part);
    assert(text::occurs_at(hook_text(bin), part, at));
}

/// The names of members of an entry differ.
proof fn lemma_member_names()
    ensures
        "matcher"@ != "hooks"@,
        "type"@ != "command"@,
        "args"@ != "command"@,
{
    reveal_strlit("matcher");
    reveal_strlit("hooks");
    reveal_strlit("type");
    reveal_strlit("command");
    reveal_strlit("args");
    assert("matcher"@.len() == 7 && "hooks"@.len() == 5);
    assert("type"@.len() == 4 && "command"@.len() == 7 && "args"@.len() == 4);
}

/// The server counts as registered exactly where the document has it under its name, as
/// the program with its one argument. Where it has not, the document changes, and then it
/// has.
pub proof fn law_server_is_told_by_its_entry(t: Tree, bin: Seq<char>)
    ensures
        wired(Wiring::Server, t, bin) == Ok::<Option<Tree>, ()>(None) <==> serves(t, bin),
        wired(Wiring::Server, t, bin) matches Ok(Some(u)) ==> u != t && serves(u, bin),
        wired(Wiring::Server, t, bin) is Ok,
{
    lemma_serves(t, bin);
    if let Ok(Some(u)) = wired(Wiring::Server, t, bin) {
        law_wired_once(Wiring::Server, t, bin);
        lemma_serves(u, bin);
    }
}

proof fn lemma_serves(t: Tree, bin: Seq<char>)
    ensures
        server_registered(t, bin) <==> serves(t, bin),
{
    lemma_member_names();
    let whole = server_entry(bin)->Object_0;
    assert(whole.dom() =~= set!["command"@, "args"@]);
    assert(whole["command"@] == Tree::Text(bin));
    if serves(t, bin) {
        let entry = t->Object_0["mcpServers"@]->Object_0["sonar"@]->Object_0;
        assert(entry =~= whole);
    }
}

/// A file that counts as settled holds what was to be installed: for the hook a command
/// at the end of a session that holds the program's path, for the server its entry. A file
/// that is missing or blank is never settled.
pub proof fn law_settled_file_holds_it(w: Wiring, raw: Option<Seq<char>>, bin: Seq<char>)
    ensures
        settled(w, raw, bin) <==> raw is Some && !text::is_blank(raw->0) && (json::json_read(
            raw->0,
        ) matches Some(t) && match w {
            Wiring::Hook => runs_at_session_end(t, bin),
            Wiring::Server => serves(t, bin),
        }),
{
    let nothing = Tree::Object(Map::empty());
    lemma_runs_at_session_end(nothing, bin);
    lemma_serves(nothing, bin);
    assert(!runs_at_session_end(nothing, bin));
    if let Some(t) = document_of(raw) {
        lemma_runs_at_session_end(t, bin);
        lemma_serves(t, bin);
    }
}

/// After an installation the agent's settings run the program at the end of a session,
/// and its servers, or those of the project, have the search server, each unless it was
/// left out. Each step settles its file, which is what planning it ensures.
pub proof fn law_installation_is_in_the_files(
    files: Map<Seq<char>, Seq<char>>,
    opts: InstallOpts,
    agent: Seq<char>,
    home: Seq<char>,
    bin: Seq<char>,
)
    requires
        !agent.contains('/'),
        after_install(files, wanted_steps(opts, agent, home), bin, false) is Some,
        !opts.no_hook ==> settles(
            Wiring::Hook,
            held(files, settings_file(agent, home).path()),
            bin,
        ),
        !opts.no_mcp ==> settles(
            Wiring::Server,
            held(files, server_file(text::view_of(opts.project_mcp), agent, home).path()),
            bin,
        ),
    ensures
        ({
            let f = after_install(files, wanted_steps(opts, agent, home), bin, false)->0;
            let settings = paths::join_path(
                paths::join_path(home, seq!['.'] + agent),
                "settings.json"@,
            );
            let servers = match opts.project_mcp {
                Some(dir) => paths::join_path(dir@, ".mcp.json"@),
                None => paths::join_path(home, seq!['.'] + agent + ".json"@),
            };
            &&& !opts.no_hook ==> f.contains_key(settings) && (json::json_read(
                f[settings],
            ) matches Some(t) && runs_at_session_end(t, bin))
            &&& !opts.no_mcp ==> f.contains_key(servers) && (json::json_read(
                f[servers],
            ) matches Some(t) && serves(t, bin))
        }),
{
    let project = text::view_of(opts.project_mcp);
    let steps = wanted_steps(opts, agent, home);
    let (x, y) = (hook_step(agent, home), server_step(project, agent, home));
    let (a, b) = (x.1, y.1);
    lemma_targets_differ(project, agent, home);
    lemma_config_names(project, agent, home);
    assert(touches(b, b.path()) && touches(a, a.path()));
    assert(!touches(b, a.path()) && !touches(a, b.path()));
    reveal_with_fuel(after_install, 3);
    let installed = after_install(files, steps, bin, false)->0;
    if !opts.no_hook && !opts.no_mcp {
        assert(steps.last() == y && steps.drop_last() =~= seq![x]);
        assert(seq![x].drop_last() =~= seq![]);
        let mid = after_step(files, x, bin, false)->0;
        lemma_step_settles(files, x, bin);
        law_step_touches_only_its_file(files, x, bin, false, b.path());
        lemma_step_settles(mid, y, bin);
        law_step_touches_only_its_file(mid, y, bin, false, a.path());
    } else if !opts.no_hook {
        assert(steps.last() == x && steps.drop_last() =~= seq![]);
        lemma_step_settles(files, x, bin);
    } else if !opts.no_mcp {
        assert(steps.last() == y && steps.drop_last() =~= seq![]);
        lemma_step_settles(files, y, bin);
    }
    law_settled_file_holds_it(Wiring::Hook, held(installed, a.path()), bin);
    law_settled_file_holds_it(Wiring::Server, held(installed, b.path()), bin);
}

/// A file is never written in place: its new content goes to a file beside it, which then
/// takes its place; before that its directory is made if the file is not there, and the
/// file is copied if it is and has no copy. Nothing else is done, and nothing at all where
/// there is no change or in a dry run.
pub proof fn law_change_takes_the_place_of_the_file(
    t: Tree,
    file: Place,
    present: bool,
    backed_up: bool,
)
    ensures
        ({
            let all = change_actions(Some(t), file, present, backed_up, false);
            let n = all.len();
            &&& n >= 2
            &&& all[n - 2] == ActionView::Write(file.temp(), json::json_pretty(t))
            &&& all[n - 1] == ActionView::Rename(file.temp(), file.path())
            &&& !present ==> n == 3 && all[0] == ActionView::CreateDir(file.dir)
            &&& present && !backed_up ==> n == 3 && all[0] == ActionView::Copy(
                file.path(),
                file.backup(),
            )
            &&& present && backed_up ==> n == 2
        }),
        change_actions(Some(t), file, present, backed_up, true).len() == 0,
        change_actions(None, file, present, backed_up, false).len() == 0,
{
}

/// The copy of a file, and the file that is written beside it, are in its directory and
/// named after it.
pub proof fn law_copies_are_named_after_the_file(dir: Seq<char>, stem: Seq<char>)
    requires
        stem.len() > 0,
        stem[0] != '/',
    ensures
        ({
            let file = Place { dir, name: stem + ".json"@ };
            &&& file.path() == paths::join_path(dir, stem + ".json"@)
            &&& file.backup() == file.path() + ".pre-sonar"@
            &&& file.temp() == file.path() + ".sonar-tmp"@
        }),
{
    reveal_strlit(".json");
    reveal_strlit(".json.sonar-tmp");
    reveal_strlit(".sonar-tmp");
    reveal_strlit(".pre-sonar");
    let name = stem + ".json"@;
    let ext = seq!['j', 's', 'o', 'n'];
    assert(".json"@ =~= seq!['.'] + ext);
    assert(name =~= stem + seq!['.'] + ext);
    assert(!ext.contains('.'));
    paths::lemma_last_dot(stem, ext);
    assert(name.take(stem.len() as int) =~= stem);
    assert(".json.sonar-tmp"@ =~= ".json"@ + ".sonar-tmp"@);
    let file = Place { dir, name };
    assert(temp_name(name) =~= name + ".sonar-tmp"@);
    assert(file.backup() =~= file.path() + ".pre-sonar"@);
    assert(file.temp() =~= file.path() + ".sonar-tmp"@);
}

/// How a change is told: that there is none, or what was done, or in a dry run what would
/// be, which is the same between two marks.
pub proof fn law_changes_are_told(w: Wiring, dry_run: bool)
    ensures
        change_summary(w, false, dry_run) == "already installed"@,
        change_summary(w, true, true) == "would: "@ + change_summary(w, true, false) + " (dry-run)"@,
        change_summary(Wiring::Hook, true, false) == "added SessionEnd hook for sonar"@,
        change_summary(Wiring::Server, true, false) == "registered sonar MCP server"@,
{
}

/// Adding the hook changes one place of a document: the list of the hooks for the end of a
/// session has one more entry at its end. What is in the way of that place, something
/// other than an object with the hooks or than the document itself being one, gives way.
pub proof fn law_hook_is_added_in_one_place(t: Tree, bin: Seq<char>)
    requires
        wired(Wiring::Hook, t, bin) matches Ok(Some(_)),
    ensures
        ({
            let root = if t is Object {
                t->Object_0
            } else {
                Map::empty()
            };
            let events = if root.contains_key("hooks"@) && root["hooks"@] is Object {
                root["hooks"@]->Object_0
            } else {
                Map::empty()
            };
            let entries = if events.contains_key("SessionEnd"@) {
                events["SessionEnd"@]->Array_0
            } else {
                Seq::empty()
            };
            let after = wired(Wiring::Hook, t, bin)->Ok_0->0;
            let entry = after->Object_0["hooks"@]->Object_0["SessionEnd"@]->Array_0.last();
            after == Tree::Object(
                root.insert(
                    "hooks"@,
                    Tree::Object(events.insert("SessionEnd"@, Tree::Array(entries.push(entry)))),
                ),
            )
        }),
{
    let hooks = session_end_hooks(t)->0;
    let after = with_hook(t, hooks, bin);
    let entry = hook_entry(bin);
    let events = object_member(t, "hooks"@);
    let entries = if events.contains_key("SessionEnd"@) {
        events["SessionEnd"@]->Array_0
    } else {
        Seq::empty()
    };
    assert(entries =~= hooks);
    assert(after == Tree::Object(
        object_of(t).insert(
            "hooks"@,
            Tree::Object(events.insert("SessionEnd"@, Tree::Array(entries.push(entry)))),
        ),
    ));
}

/// Registering the server changes one place of a document, its entry among the servers.
/// What is in the way of that place gives way.
pub proof fn law_server_is_registered_in_one_place(t: Tree, bin: Seq<char>)
    requires
        wired(Wiring::Server, t, bin) matches Ok(Some(_)),
    ensures
        ({
            let root = if t is Object {
                t->Object_0
            } else {
                Map::empty()
            };
            let servers = if root.contains_key("mcpServers"@) && root["mcpServers"@] is Object {
                root["mcpServers"@]->Object_0
            } else {
                Map::empty()
            };
            let after = wired(Wiring::Server, t, bin)->Ok_0->0;
            let entry = after->Object_0["mcpServers"@]->Object_0["sonar"@];
            after == Tree::Object(
                root.insert("mcpServers"@, Tree::Object(servers.insert("sonar"@, entry))),
            )
        }),
{
    let entry = server_entry(bin);
    assert(with_server(t, bin) == Tree::Object(
        object_of(t).insert(
            "mcpServers"@,
            Tree::Object(object_member(t, "mcpServers"@).insert("sonar"@, entry)),
        ),
    ));
}

/// To put a file back is to copy its copy over it: it then holds what the copy holds, and
/// nothing else changes. A file without a copy stays as it is.
pub proof fn law_restored_file_is_its_copy(files: Map<Seq<char>, Seq<char>>, file: Place)
    ensures
        restore_actions(file, true) == seq![ActionView::Copy(file.backup(), file.path())],
        restore_actions(file, false).len() == 0,
        files.contains_key(file.backup()) ==> after_restore(files, file) == files.insert(
            file.path(),
            files[file.backup()],
        ),
        !files.contains_key(file.backup()) ==> after_restore(files, file) == files,
{
    reveal_with_fuel(acted_all, 2);
    let one = seq![ActionView::Copy(file.backup(), file.path())];
    assert(one.drop_last() =~= seq![]);
}

/// What actions and steps say is what is in them, one by one and in order.
pub proof fn law_actions_are_seen_as_they_are(
    v: Seq<Action>,
    steps: Seq<(Wiring, Target)>,
    i: int,
    t: Target,
)
    ensures
        action_views(v).len() == v.len(),
        0 <= i < v.len() ==> match v[i] {
            Action::CreateDir(d) => action_views(v)[i] == ActionView::CreateDir(d@),
            Action::Copy(from, to) => action_views(v)[i] == ActionView::Copy(from@, to@),
            Action::Write(path, s) => action_views(v)[i] == ActionView::Write(path@, s@),
            Action::Rename(from, to) => action_views(v)[i] == ActionView::Rename(from@, to@),
        },
        steps_view(steps).len() == steps.len(),
        0 <= i < steps.len() ==> steps_view(steps)[i] == (steps[i].0, steps[i].1@),
        t@.dir == t.dir@ && t@.name == t.name@,
{
}

} // verus!
