//! What the search server decides: what a request searches for, which repository
//! it means, and what to paste into a configuration to use the server.

use vstd::prelude::*;
use vstd::utf8::encode_utf8;
use crate::clock;
use crate::clock::Timestamp;
use crate::code::index as code_index;
use crate::code::index::{label_of_name, CodeSearchArgs};
use crate::index;
use crate::index::{parse_since_at, SearchArgs, SinceError};
use crate::install;
use crate::json;
use crate::json::{put_member, Json, Tree};
use crate::paths;
use crate::text;
use crate::text::join;

verus! {

/// A request to search transcripts.
#[derive(Debug, Clone)]
pub struct SonarArgs {
    /// The query, with phrases in quotes, `AND` and `OR`.
    pub query: String,
    /// The time window: an ISO date, or a number with a unit such as `3d`.
    pub since: Option<String>,
    /// The label of the project to search.
    pub project: Option<String>,
    /// How many results to return at most: ten unless told otherwise, and no more
    /// than a hundred.
    pub limit: Option<usize>,
}

/// A request to search source code.
#[derive(Debug, Clone)]
pub struct SonarCodeArgs {
    /// The query, with phrases in quotes, `AND` and `OR`.
    pub query: String,
    /// The label of the repository to search, needed where there are several.
    pub repo: Option<String>,
    /// The language to search.
    pub language: Option<String>,
    /// How many results to return at most: ten unless told otherwise, and no more
    /// than a hundred.
    pub limit: Option<usize>,
}

/// The start of the time window of a request, given the time.
pub open spec fn requested_start(since: Option<String>, now: Timestamp) -> Result<
    Option<Timestamp>,
    SinceError,
> {
    match since {
        Some(s) => match index::since_start(s@, now) {
            Ok(t) => Ok(Some(t)),
            Err(e) => Err(e),
        },
        None => Ok(None),
    }
}

/// What is wrong with the time window of a request.
pub open spec fn since_complaint(since: Option<String>, e: SinceError) -> Seq<char> {
    let s = match since {
        Some(t) => t@,
        None => seq![],
    };
    "invalid 'since': "@ + (match e {
        SinceError::Value => "invalid --since value: "@,
        SinceError::Unit => "invalid time unit in --since: "@,
        SinceError::OutOfRange => "--since value out of range: "@,
    }) + s
}

/// Whether a search is the one that a request asks for at the given time, or the
/// complaint is the one about the request.
pub open spec fn answers(r: Result<SearchArgs, String>, args: SonarArgs, now: Timestamp) -> bool {
    match r {
        Ok(a) => a.query@ == args.query@ && Ok::<Option<Timestamp>, SinceError>(a.since)
            == requested_start(args.since, now) && text::view_of(a.project) == text::view_of(
            args.project,
        ) && a.limit == args.limit && (a.since matches Some(t) ==> t.valid()),
        Err(m) => requested_start(args.since, now) matches Err(e) && m@ == since_complaint(
            args.since,
            e,
        ),
    }
}

/// What is wrong with the time window of a request.
fn complain(s: &str, e: SinceError) -> (r: String)
    ensures
        r@ == "invalid 'since': "@ + (match e {
            SinceError::Value => "invalid --since value: "@,
            SinceError::Unit => "invalid time unit in --since: "@,
            SinceError::OutOfRange => "--since value out of range: "@,
        }) + s@,
{
    let mut out = "invalid 'since': ".to_string();
    out.append(e.message(s).as_str());
    assert(out@ =~= "invalid 'since': "@ + (match e {
        SinceError::Value => "invalid --since value: "@,
        SinceError::Unit => "invalid time unit in --since: "@,
        SinceError::OutOfRange => "--since value out of range: "@,
    }) + s@);
    out
}

/// What a request to search transcripts searches for, given the time.
pub fn search_request_at(args: SonarArgs, now: Timestamp) -> (r: Result<SearchArgs, String>)
    requires
        now.valid(),
        now.nanos < 1_000_000_000,
    ensures
        answers(r, args, now),
{
    let since: Option<Timestamp> = match &args.since {
        Some(s) => match parse_since_at(s.as_str(), now) {
            Ok(t) => Some(t),
            Err(e) => return Err(complain(s.as_str(), e)),
        },
        None => None,
    };
    Ok(SearchArgs { query: args.query, since, project: args.project, limit: args.limit })
}

/// What a request to search transcripts searches for, at the time of the call.
pub fn search_request(args: SonarArgs) -> (r: Result<SearchArgs, String>)
    ensures
        exists|now: Timestamp|
            now.valid() && now.nanos < 1_000_000_000 && #[trigger] answers(r, args, now),
{
    let now = clock::utc_now();
    search_request_at(args, now)
}

/// What a request to search the code of a repository searches for.
pub fn code_search_request(args: SonarCodeArgs, label: String) -> (r: CodeSearchArgs)
    ensures
        r.query@ == args.query@,
        text::view_of(r.repo) == Some(label@),
        text::view_of(r.language) == text::view_of(args.language),
        r.limit == args.limit,
{
    CodeSearchArgs {
        query: args.query,
        repo: Some(label),
        language: args.language,
        limit: args.limit,
    }
}

/// Which repository a request means that names none.
#[derive(Debug, Clone)]
pub enum RepoResolution {
    /// None is indexed.
    Empty,
    /// The only one that is indexed.
    One(String),
    /// Several are indexed, and these are they.
    Many(Vec<String>),
}

/// Whether one list of bytes is not after another in the order of a dictionary.
pub open spec fn not_after(a: Seq<u8>, b: Seq<u8>) -> bool
    decreases a.len(),
{
    if a.len() == 0 {
        true
    } else if b.len() == 0 {
        false
    } else if a[0] != b[0] {
        a[0] < b[0]
    } else {
        not_after(a.drop_first(), b.drop_first())
    }
}

/// Whether texts are in the order of a dictionary, by their bytes.
pub open spec fn in_order(s: Seq<Seq<char>>) -> bool {
    forall|i: int, k: int|
        0 <= i <= k < s.len() ==> not_after(encode_utf8(#[trigger] s[i]), encode_utf8(#[trigger] s[k]))
}

/// The names of the directories among the entries of a directory, each of which comes
/// with whether it is one.
pub open spec fn subdirs(entries: Seq<(String, bool)>) -> Seq<Seq<char>>
    decreases entries.len(),
{
    if entries.len() == 0 {
        seq![]
    } else if entries.last().1 {
        subdirs(entries.drop_last()).push(entries.last().0@)
    } else {
        subdirs(entries.drop_last())
    }
}

/// The names of the directories in a directory, which has none where it is missing.
pub open spec fn repo_dirs(entries: Option<&Vec<(String, bool)>>) -> Seq<Seq<char>> {
    match entries {
        Some(v) => subdirs(v@),
        None => seq![],
    }
}

/// The order is total.
proof fn lemma_order_total(a: Seq<u8>, b: Seq<u8>)
    ensures
        not_after(a, b) || not_after(b, a),
    decreases a.len(),
{
    if a.len() > 0 && b.len() > 0 && a[0] == b[0] {
        lemma_order_total(a.drop_first(), b.drop_first());
    }
}

/// The order is transitive.
proof fn lemma_order_transitive(a: Seq<u8>, b: Seq<u8>, c: Seq<u8>)
    requires
        not_after(a, b),
        not_after(b, c),
    ensures
        not_after(a, c),
    decreases a.len(),
{
    if a.len() > 0 && b.len() > 0 && c.len() > 0 && a[0] == b[0] && b[0] == c[0] {
        lemma_order_transitive(a.drop_first(), b.drop_first(), c.drop_first());
    }
}

/// Whether one text is not after another in the order of a dictionary.
fn is_not_after(a: &str, b: &str) -> (r: bool)
    ensures
        r == not_after(encode_utf8(a@), encode_utf8(b@)),
{
    let x = a.as_bytes();
    let y = b.as_bytes();
    let mut i: usize = 0;
    assert(x@.skip(0) =~= x@);
    assert(y@.skip(0) =~= y@);
    while i < x.len() && i < y.len() && x[i] == y[i]
        invariant
            i <= x@.len(),
            i <= y@.len(),
            not_after(x@, y@) == not_after(x@.skip(i as int), y@.skip(i as int)),
        decreases x.len() - i,
    {
        proof {
            assert(x@.skip(i as int)[0] == y@.skip(i as int)[0]);
            assert(x@.skip(i as int).drop_first() =~= x@.skip(i + 1));
            assert(y@.skip(i as int).drop_first() =~= y@.skip(i + 1));
        }
        i += 1;
    }
    if i >= x.len() {
        true
    } else if i >= y.len() {
        false
    } else {
        assert(x@.skip(i as int)[0] == x@[i as int] && y@.skip(i as int)[0] == y@[i as int]);
        x[i] < y[i]
    }
}

/// Puts a text into a list in order, in its place.
fn insert_in_order(list: &mut Vec<String>, label: String)
    requires
        in_order(text::views(old(list)@)),
    ensures
        in_order(text::views(final(list)@)),
        text::views(final(list)@).to_multiset() == text::views(old(list)@).to_multiset().insert(
            label@,
        ),
{
    let ghost before = text::views(list@);
    let ghost new = label@;
    let mut at: usize = 0;
    while at < list.len() && is_not_after(list[at].as_str(), label.as_str())
        invariant
            at <= list@.len(),
            new == label@,
            before == text::views(list@),
            forall|k: int| 0 <= k < at ==> not_after(encode_utf8(#[trigger] before[k]), encode_utf8(new)),
        decreases list.len() - at,
    {
        assert(before[at as int] == list@[at as int]@);
        at += 1;
    }
    proof {
        if at < list@.len() {
            assert(before[at as int] == list@[at as int]@);
            lemma_order_total(encode_utf8(before[at as int]), encode_utf8(new));
        }
    }
    list.insert(at, label);
    proof {
        let after = text::views(list@);
        assert(after =~= before.insert(at as int, new));
        vstd::seq_lib::to_multiset_insert(before, at as int, new);
        assert forall|i: int, k: int| 0 <= i <= k < after.len() implies not_after(
            encode_utf8(#[trigger] after[i]),
            encode_utf8(#[trigger] after[k]),
        ) by {
            if i == k {
                lemma_order_total(encode_utf8(after[i]), encode_utf8(after[i]));
            } else if k < at {
                assert(after[i] == before[i] && after[k] == before[k]);
            } else if k == at {
                assert(after[i] == before[i]);
            } else if i < at {
                assert(after[i] == before[i] && after[k] == before[k - 1]);
            } else if i == at {
                assert(after[k] == before[k - 1]);
                lemma_order_transitive(
                    encode_utf8(new),
                    encode_utf8(before[at as int]),
                    encode_utf8(before[k - 1]),
                );
            } else {
                assert(after[i] == before[i - 1] && after[k] == before[k - 1]);
            }
        }
    }
}

/// The names of the directories in the directory of all code indexes, in order: each
/// holds the index of a repository. The entries are missing where that directory is.
pub fn code_repos_in(entries: Option<&Vec<(String, bool)>>) -> (r: Vec<String>)
    ensures
        in_order(text::views(r@)),
        text::views(r@).to_multiset() == repo_dirs(entries).to_multiset(),
        r@.len() == repo_dirs(entries).len(),
{
    let mut out: Vec<String> = Vec::new();
    assert(text::views(out@) =~= seq![]);
    match entries {
        None => {},
        Some(v) => {
            let mut i: usize = 0;
            assert(v@.take(0) =~= seq![]);
            while i < v.len()
                invariant
                    i <= v.len(),
                    in_order(text::views(out@)),
                    text::views(out@).to_multiset() == subdirs(v@.take(i as int)).to_multiset(),
                decreases v.len() - i,
            {
                let (name, is_dir) = &v[i];
                proof {
                    assert(v@.take(i + 1).drop_last() =~= v@.take(i as int));
                    assert(v@.take(i + 1).last() == v@[i as int]);
                    vstd::seq_lib::to_multiset_build(subdirs(v@.take(i as int)), name@);
                }
                if *is_dir {
                    insert_in_order(&mut out, name.clone());
                }
                i += 1;
            }
            assert(v@.take(i as int) =~= v@);
        },
    }
    proof {
        vstd::seq_lib::to_multiset_len(text::views(out@));
        vstd::seq_lib::to_multiset_len(repo_dirs(entries));
    }
    out
}

/// Which repository a request means that names none, given the entries of the
/// directory of all code indexes: the one whose directory is the only one. To have none
/// and to have several are told apart. Repositories are told by the names of their
/// directories.
pub fn classify_code_repos(entries: Option<&Vec<(String, bool)>>) -> (r: RepoResolution)
    ensures
        match r {
            RepoResolution::Empty => repo_dirs(entries).len() == 0,
            RepoResolution::One(name) => repo_dirs(entries) == seq![name@],
            RepoResolution::Many(names) => repo_dirs(entries).len() >= 2 && in_order(
                text::views(names@),
            ) && text::views(names@).to_multiset() == repo_dirs(entries).to_multiset(),
        },
{
    let mut names = code_repos_in(entries);
    let ghost all = text::views(names@);
    if names.len() == 0 {
        return RepoResolution::Empty;
    }
    if names.len() == 1 {
        proof {
            let d = repo_dirs(entries);
            let one = seq![all[0]];
            assert(all =~= one);
            vstd::seq_lib::to_multiset_contains(d, d[0]);
            vstd::seq_lib::to_multiset_contains(all, d[0]);
            assert(all.contains(d[0]));
            assert(d =~= one);
        }
        match names.pop() {
            Some(name) => return RepoResolution::One(name),
            None => return RepoResolution::Empty,
        }
    }
    RepoResolution::Many(names)
}

/// The same repositories by their labels, which is how an index is opened and what is
/// in it is filtered.
pub fn by_label(found: RepoResolution) -> (r: RepoResolution)
    ensures
        match found {
            RepoResolution::Empty => r is Empty,
            RepoResolution::One(name) => r matches RepoResolution::One(label) && label@
                == code_index::dir_label(name@),
            RepoResolution::Many(names) => r matches RepoResolution::Many(labels) && text::views(
                labels@,
            ) == text::views(names@).map_values(|name: Seq<char>| code_index::dir_label(name)),
        },
{
    match found {
        RepoResolution::Empty => RepoResolution::Empty,
        RepoResolution::One(name) => RepoResolution::One(label_of_name(name.as_str())),
        RepoResolution::Many(names) => {
            let mut labels: Vec<String> = Vec::new();
            let mut i: usize = 0;
            while i < names.len()
                invariant
                    i <= names.len(),
                    labels@.len() == i,
                    forall|k: int|
                        0 <= k < i ==> (#[trigger] labels@[k])@ == code_index::dir_label(
                            names@[k]@,
                        ),
                decreases names.len() - i,
            {
                labels.push(label_of_name(names[i].as_str()));
                i += 1;
            }
            assert(text::views(labels@) =~= text::views(names@).map_values(
                |name: Seq<char>| code_index::dir_label(name),
            ));
            RepoResolution::Many(labels)
        },
    }
}

/// The directory of all code indexes, given the user's home directory.
pub fn code_root_under(home: &Option<String>) -> (r: Result<String, paths::NoHome>)
    ensures
        match r {
            Ok(p) => home matches Some(h) && p@ == paths::join_path(
                paths::join_path(h@, ".sonar"@),
                "code"@,
            ),
            Err(_) => home is None,
        },
{
    paths::under_home(home, ".sonar", "code")
}

/// The label of the repository that a request means: the one that it names, or the
/// only one that was found. Where there is none or several, a message that says what to
/// do.
pub fn repo_for_request(named: Option<String>, found: RepoResolution) -> (r: Result<String, String>)
    ensures
        match (named, found) {
            (Some(label), _) => r matches Ok(l) && l@ == label@,
            (None, RepoResolution::One(label)) => r matches Ok(l) && l@ == label@,
            (None, RepoResolution::Empty) => r matches Err(m) && m@
                == "no code repos indexed. run `sonar code index --repo <path>` first."@,
            (None, RepoResolution::Many(labels)) => r matches Err(m) && m@
                == "multiple repos indexed ("@ + text::joined(text::views(labels@), ", "@)
                + "). specify which one with `repo: \"<label>\"`."@,
        },
{
    match named {
        Some(label) => Ok(label),
        None => match found {
            RepoResolution::One(label) => Ok(label),
            RepoResolution::Empty => Err(
                "no code repos indexed. run `sonar code index --repo <path>` first.".to_string(),
            ),
            RepoResolution::Many(labels) => {
                let mut out = "multiple repos indexed (".to_string();
                out.append(join(&labels, ", ").as_str());
                out.append("). specify which one with `repo: \"<label>\"`.");
                Err(out)
            },
        },
    }
}

/// A configuration with the search server registered and nothing else.
pub open spec fn server_config(bin: Seq<char>) -> Tree {
    Tree::Object(
        Map::empty().insert(
            "mcpServers"@,
            Tree::Object(Map::empty().insert("sonar"@, install::server_entry(bin))),
        ),
    )
}

/// A configuration with the hook for the end of a session and nothing else.
pub open spec fn hook_config(bin: Seq<char>) -> Tree {
    Tree::Object(
        Map::empty().insert(
            "hooks"@,
            Tree::Object(
                Map::empty().insert("SessionEnd"@, Tree::Array(seq![install::hook_entry(bin)])),
            ),
        ),
    )
}

/// The configuration to paste to have the search server registered, on one line.
pub fn mcp_config_snippet(bin: &str) -> (r: String)
    ensures
        r@ == json::json_compact(server_config(bin@)),
{
    let mut servers: Vec<(String, Json)> = Vec::new();
    put_member(&mut servers, "sonar", install::make_server_entry(bin));
    let mut root: Vec<(String, Json)> = Vec::new();
    put_member(&mut root, "mcpServers", Json::Object(servers));
    Json::Object(root).compact()
}

/// The configuration to paste to have the hook for the end of a session, indented.
pub fn hook_config_snippet(bin: &str) -> (r: String)
    ensures
        r@ == json::json_pretty(hook_config(bin@)),
{
    let mut list: Vec<Json> = Vec::new();
    list.push(install::make_hook_entry(bin));
    let mut hooks: Vec<(String, Json)> = Vec::new();
    proof {
        install::lemma_array(list);
        assert(install::trees(list@) =~= seq![install::hook_entry(bin@)]);
    }
    put_member(&mut hooks, "SessionEnd", Json::Array(list));
    let mut root: Vec<(String, Json)> = Vec::new();
    put_member(&mut root, "hooks", Json::Object(hooks));
    Json::Object(root).pretty()
}

/// To paste a snippet is to install: what is installed into an empty configuration
/// is the snippet.
pub proof fn law_snippets_are_what_is_installed(bin: Seq<char>)
    ensures
        install::wired(install::Wiring::Server, Tree::Object(Map::empty()), bin) == Ok::<
            Option<Tree>,
            (),
        >(Some(server_config(bin))),
        install::wired(install::Wiring::Hook, Tree::Object(Map::empty()), bin) == Ok::<
            Option<Tree>,
            (),
        >(Some(hook_config(bin))),
{
    let none = Tree::Object(Map::<Seq<char>, Tree>::empty());
    assert(install::session_end_hooks(none) == Some(Seq::<Tree>::empty()));
    assert(Seq::<Tree>::empty().push(install::hook_entry(bin)) =~= seq![install::hook_entry(bin)]);
}

/// The names of several directories are in the same order in whatever order the
/// directory that they are in is read.
pub proof fn law_order_does_not_depend_on_reading(a: Seq<Seq<char>>, b: Seq<Seq<char>>)
    requires
        in_order(a),
        in_order(b),
        a.to_multiset() == b.to_multiset(),
    ensures
        a == b,
    decreases a.len(),
{
    vstd::seq_lib::to_multiset_len(a);
    vstd::seq_lib::to_multiset_len(b);
    if a.len() > 0 {
        let x = a.last();
        let y = b.last();
        vstd::seq_lib::to_multiset_contains(a, x);
        vstd::seq_lib::to_multiset_contains(b, x);
        vstd::seq_lib::to_multiset_contains(b, y);
        vstd::seq_lib::to_multiset_contains(a, y);
        assert(a[a.len() - 1] == x && b[b.len() - 1] == y);
        assert(a.contains(x) && b.contains(y));
        let i = choose|i: int| 0 <= i < b.len() && b[i] == x;
        let k = choose|k: int| 0 <= k < a.len() && a[k] == y;
        assert(not_after(encode_utf8(b[i]), encode_utf8(b[b.len() - 1])));
        assert(not_after(encode_utf8(a[k]), encode_utf8(a[a.len() - 1])));
        lemma_order_antisymmetric(encode_utf8(x), encode_utf8(y));
        text::lemma_utf8_injective(x, y);
        let p = a.drop_last();
        let q = b.drop_last();
        assert(a =~= p.push(x) && b =~= q.push(x));
        vstd::seq_lib::to_multiset_build(p, x);
        vstd::seq_lib::to_multiset_build(q, x);
        assert(p.to_multiset() =~= a.to_multiset().remove(x));
        assert(q.to_multiset() =~= b.to_multiset().remove(x));
        assert forall|i: int, k: int| 0 <= i <= k < p.len() implies not_after(
            encode_utf8(#[trigger] p[i]),
            encode_utf8(#[trigger] p[k]),
        ) by {
            assert(p[i] == a[i] && p[k] == a[k]);
        }
        assert forall|i: int, k: int| 0 <= i <= k < q.len() implies not_after(
            encode_utf8(#[trigger] q[i]),
            encode_utf8(#[trigger] q[k]),
        ) by {
            assert(q[i] == b[i] && q[k] == b[k]);
        }
        law_order_does_not_depend_on_reading(p, q);
    } else {
        assert(a =~= b);
    }
}

/// Of two different lists of bytes one is after the other.
proof fn lemma_order_antisymmetric(a: Seq<u8>, b: Seq<u8>)
    requires
        not_after(a, b),
        not_after(b, a),
    ensures
        a == b,
    decreases a.len(),
{
    if a.len() > 0 && b.len() > 0 {
        lemma_order_antisymmetric(a.drop_first(), b.drop_first());
        assert(a =~= seq![a[0]] + a.drop_first());
        assert(b =~= seq![b[0]] + b.drop_first());
    } else {
        assert(a =~= b);
    }
}

/// The order is that of a dictionary: of two texts that are the same up to some place the
/// one with the smaller byte there comes first, and a text comes before those that go on
/// from it.
pub proof fn law_order_is_that_of_a_dictionary(front: Seq<u8>, a: Seq<u8>, b: Seq<u8>)
    ensures
        a.len() > 0 && b.len() > 0 && a[0] < b[0] ==> not_after(front + a, front + b) && !not_after(
            front + b,
            front + a,
        ),
        not_after(front, front + a),
        a.len() > 0 ==> !not_after(front + a, front),
    decreases front.len(),
{
    let (x, y) = (front + a, front + b);
    if front.len() > 0 {
        let rest = front.drop_first();
        law_order_is_that_of_a_dictionary(rest, a, b);
        assert(x.drop_first() =~= rest + a);
        assert(y.drop_first() =~= rest + b);
        assert(x[0] == front[0] && y[0] == front[0]);
    } else {
        assert(x =~= a);
        assert(y =~= b);
    }
}

/// The repositories are told by the directories among the entries, all of them and nothing
/// else, in the order of the entries.
pub proof fn law_every_directory_is_a_repository(entries: Seq<(String, bool)>)
    ensures
        subdirs(entries) == entries.filter(|e: (String, bool)| e.1).map_values(
            |e: (String, bool)| e.0@,
        ),
        forall|v: Vec<(String, bool)>| #[trigger] v@ == entries ==> repo_dirs(Some(&v)) == subdirs(entries),
        repo_dirs(None).len() == 0,
    decreases entries.len(),
{
    reveal(Seq::filter);
    let keep = |e: (String, bool)| e.1;
    let name = |e: (String, bool)| e.0@;
    if entries.len() > 0 {
        law_every_directory_is_a_repository(entries.drop_last());
    }
    assert(subdirs(entries) =~= entries.filter(keep).map_values(name));
}

/// A request is answered with a search for its query, in its project and with its limit,
/// from the start of its window if it has one; only a window that cannot be read is
/// complained about, and the complaint says which.
pub proof fn law_request_is_answered(r: Result<SearchArgs, String>, args: SonarArgs, now: Timestamp)
    requires
        answers(r, args, now),
    ensures
        args.since is None ==> r is Ok,
        args.since matches Some(s) ==> (r is Ok <==> index::since_start(s@, now) is Ok),
        r matches Ok(a) ==> {
            &&& a.query@ == args.query@
            &&& a.limit == args.limit
            &&& match args.project {
                Some(p) => a.project matches Some(q) && q@ == p@,
                None => a.project is None,
            }
            &&& match args.since {
                Some(s) => a.since matches Some(t) && index::since_start(s@, now) == Ok::<
                    Timestamp,
                    SinceError,
                >(t),
                None => a.since is None,
            }
        },
        r matches Err(m) ==> args.since is Some && {
            let s = args.since->0@;
            let start = index::since_start(s, now);
            &&& start == Err::<Timestamp, SinceError>(SinceError::Value) ==> m@
                == "invalid 'since': "@ + "invalid --since value: "@ + s
            &&& start == Err::<Timestamp, SinceError>(SinceError::Unit) ==> m@
                == "invalid 'since': "@ + "invalid time unit in --since: "@ + s
            &&& start == Err::<Timestamp, SinceError>(SinceError::OutOfRange) ==> m@
                == "invalid 'since': "@ + "--since value out of range: "@ + s
        },
{
}

} // verus!
