//! The index of session transcripts: its schema, the document for a record, and
//! what a search asks of the index and makes of the documents it finds.

use vstd::prelude::*;
use crate::clock;
use crate::clock::Timestamp;
use crate::parse::IndexableEvent;
use crate::paths;
use crate::snippet;
use crate::store;
use crate::text;
use crate::text::chars_of;
use crate::wording;

verus! {

/// The numbers of the index's fields.
#[derive(Clone, Copy, Debug, PartialEq, Eq, Structural)]
pub struct Fields {
    pub session_id: u32,
    pub project: u32,
    pub event_role: u32,
    pub timestamp: u32,
    pub cwd: u32,
    pub git_branch: u32,
    pub file_path: u32,
    pub event_index: u32,
    pub text: u32,
}

impl Fields {
    /// The numbers in the order of the schema.
    pub open spec fn numbers(self) -> Seq<u32> {
        seq![
            self.session_id,
            self.project,
            self.event_role,
            self.timestamp,
            self.cwd,
            self.git_branch,
            self.file_path,
            self.event_index,
            self.text,
        ]
    }

    /// Whether a document can have values in these fields.
    pub open spec fn usable(self) -> bool {
        forall|i: int| 0 <= i < 9 ==> #[trigger] self.numbers()[i] <= u16::MAX
    }

    /// Whether no two of these fields are the same.
    pub open spec fn distinct(self) -> bool {
        self.numbers().no_duplicates()
    }
}

/// The fields of the index and how each is kept.
pub open spec fn event_schema() -> Seq<(Seq<char>, store::FieldKind)> {
    seq![
        ("session_id"@, store::FieldKind::Keyword),
        ("project"@, store::FieldKind::Keyword),
        ("event_role"@, store::FieldKind::Keyword),
        ("timestamp"@, store::FieldKind::Date),
        ("cwd"@, store::FieldKind::Keyword),
        ("git_branch"@, store::FieldKind::Keyword),
        ("file_path"@, store::FieldKind::Keyword),
        ("event_index"@, store::FieldKind::Number),
        ("text"@, store::FieldKind::FullText),
    ]
}

/// The fields of the index, numbered in the order of the schema.
pub open spec fn event_fields() -> Fields {
    Fields {
        session_id: 0,
        project: 1,
        event_role: 2,
        timestamp: 3,
        cwd: 4,
        git_branch: 5,
        file_path: 6,
        event_index: 7,
        text: 8,
    }
}

/// The schema of the index, and the numbers of its fields.
pub fn build_schema() -> (r: (tantivy::schema::Schema, Fields))
    ensures
        store::schema_fields(r.0) == event_schema(),
        r.1 == event_fields(),
        r.1.usable(),
        r.1.distinct(),
{
    proof {
        reveal_strlit("session_id");
        reveal_strlit("project");
        reveal_strlit("event_role");
        reveal_strlit("timestamp");
        reveal_strlit("cwd");
        reveal_strlit("git_branch");
        reveal_strlit("file_path");
        reveal_strlit("event_index");
        reveal_strlit("text");
        assert("session_id"@.len() == 10 && "session_id"@[0] == 's');
        assert("project"@.len() == 7 && "project"@[0] == 'p');
        assert("event_role"@.len() == 10 && "event_role"@[0] == 'e');
        assert("timestamp"@.len() == 9 && "timestamp"@[0] == 't');
        assert("cwd"@.len() == 3 && "cwd"@[0] == 'c');
        assert("git_branch"@.len() == 10 && "git_branch"@[0] == 'g');
        assert("file_path"@.len() == 9 && "file_path"@[0] == 'f');
        assert("event_index"@.len() == 11 && "event_index"@[0] == 'e');
        assert("text"@.len() == 4 && "text"@[0] == 't');
    }
    let mut sb = store::new_builder();
    let session_id: u32 = store::add_keyword_field(&mut sb, "session_id");
    let project: u32 = store::add_keyword_field(&mut sb, "project");
    let event_role: u32 = store::add_keyword_field(&mut sb, "event_role");
    let timestamp: u32 = store::add_date_field(&mut sb, "timestamp");
    let cwd: u32 = store::add_keyword_field(&mut sb, "cwd");
    let git_branch: u32 = store::add_keyword_field(&mut sb, "git_branch");
    let file_path: u32 = store::add_keyword_field(&mut sb, "file_path");
    let event_index: u32 = store::add_number_field(&mut sb, "event_index");
    let body: u32 = store::add_full_text_field(&mut sb, "text");
    let schema = store::finish_schema(sb);
    assert(store::schema_fields(schema) =~= event_schema());
    (
        schema,
        Fields {
            session_id,
            project,
            event_role,
            timestamp,
            cwd,
            git_branch,
            file_path,
            event_index,
            text: body,
        },
    )
}

/// Where the index is, given the user's home directory: in `.sonar/index` there.
pub fn index_path_under(home: &Option<String>) -> (r: Result<String, paths::NoHome>)
    ensures
        match r {
            Ok(p) => home matches Some(h) && p@ == paths::join_path(
                paths::join_path(h@, ".sonar"@),
                "index"@,
            ),
            Err(_) => home is None,
        },
{
    paths::under_home(home, ".sonar", "index")
}

/// Where the index is. It is in `.sonar/index` of the user's home directory,
/// wherever that is; without one there is no place for it.
pub fn default_index_path() -> (r: Result<String, paths::NoHome>)
    ensures
        r matches Ok(p) ==> exists|home: Seq<char>|
            p@ == #[trigger] paths::join_path(paths::join_path(home, ".sonar"@), "index"@),
{
    let home = paths::home_dir();
    index_path_under(&home)
}

/// The values in the document for a record.
pub open spec fn event_values(ev: IndexableEvent, f: Fields) -> Seq<(u32, store::DocValue)> {
    seq![
        (f.session_id, store::DocValue::Text(ev.session_id@)),
        (f.project, store::DocValue::Text(ev.project@)),
        (f.event_role, store::DocValue::Text(ev.event_role@)),
    ] + date_values(ev.timestamp, f.timestamp) + text_values(ev.cwd, f.cwd) + text_values(
        ev.git_branch,
        f.git_branch,
    ) + seq![
        (f.file_path, store::DocValue::Text(ev.file_path@)),
        (f.event_index, store::DocValue::Number(ev.event_index)),
        (f.text, store::DocValue::Text(ev.text@)),
    ]
}

/// The value for a text, if there is one.
pub open spec fn text_values(s: Option<String>, field: u32) -> Seq<(u32, store::DocValue)> {
    match s {
        Some(t) => seq![(field, store::DocValue::Text(t@))],
        None => seq![],
    }
}

/// The value for an instant, if there is one that the index has.
pub open spec fn date_values(t: Option<Timestamp>, field: u32) -> Seq<(u32, store::DocValue)> {
    match t {
        Some(t) => if indexable_instant(t) {
            seq![(field, store::DocValue::Date((t.micros_spec() * 1_000) as i64))]
        } else {
            seq![]
        },
        None => seq![],
    }
}

/// The bytes of an optional text and of its length.
pub open spec fn optional_size(s: Option<String>) -> nat {
    match s {
        Some(t) => text::byte_len(t@) + 5,
        None => 0,
    }
}

/// Whether the index has an instant: one that fits 64 bits of nanoseconds.
pub open spec fn indexable_instant(t: Timestamp) -> bool {
    t.valid() && i64::MIN <= t.micros_spec() * 1_000 <= i64::MAX
}

/// Whether a record can be a document, which holds less than 4 GiB.
pub open spec fn event_fits(ev: IndexableEvent) -> bool {
    text::byte_len(ev.session_id@) + text::byte_len(ev.project@) + text::byte_len(ev.event_role@)
        + text::byte_len(ev.file_path@) + text::byte_len(ev.text@) + optional_size(ev.cwd)
        + optional_size(ev.git_branch) + 41 <= u32::MAX
}

/// The room that the values of a record take.
proof fn lemma_event_size(ev: IndexableEvent, f: Fields)
    requires
        event_fits(ev),
    ensures
        store::doc_size(event_values(ev, f)) <= u32::MAX,
{
    reveal_with_fuel(store::doc_size, 4);
    let a = seq![
        (f.session_id, store::DocValue::Text(ev.session_id@)),
        (f.project, store::DocValue::Text(ev.project@)),
        (f.event_role, store::DocValue::Text(ev.event_role@)),
    ];
    let b = date_values(ev.timestamp, f.timestamp);
    let c = text_values(ev.cwd, f.cwd);
    let d = text_values(ev.git_branch, f.git_branch);
    let e = seq![
        (f.file_path, store::DocValue::Text(ev.file_path@)),
        (f.event_index, store::DocValue::Number(ev.event_index)),
        (f.text, store::DocValue::Text(ev.text@)),
    ];
    store::lemma_doc_size_concat(a + b + c + d, e);
    store::lemma_doc_size_concat(a + b + c, d);
    store::lemma_doc_size_concat(a + b, c);
    store::lemma_doc_size_concat(a, b);
    assert(a.drop_last().drop_last().drop_last() =~= seq![]);
    assert(e.drop_last().drop_last().drop_last() =~= seq![]);
    assert(b.len() > 0 ==> b.drop_last() =~= seq![]);
    assert(c.len() > 0 ==> c.drop_last() =~= seq![]);
    assert(d.len() > 0 ==> d.drop_last() =~= seq![]);
}

/// How many bytes an optional text takes with its length.
fn size_of_optional(s: &Option<String>) -> (r: u128)
    ensures
        r == optional_size(*s),
        r <= u64::MAX + 5,
{
    match s {
        Some(t) => text::size_of(t.as_str()) + 5,
        None => 0,
    }
}

/// Whether the index has an instant.
fn is_indexable_instant(t: &Timestamp) -> (r: bool)
    ensures
        r == indexable_instant(*t),
{
    if !t.is_valid() {
        return false;
    }
    let nanos: i128 = (t.micros() as i128) * 1_000;
    nanos >= i64::MIN as i128 && nanos <= i64::MAX as i128
}

/// Whether a record can be a document.
pub fn fits_index(ev: &IndexableEvent) -> (r: bool)
    ensures
        r == event_fits(*ev),
{
    let size: u128 = text::size_of(ev.session_id.as_str()) + text::size_of(ev.project.as_str())
        + text::size_of(ev.event_role.as_str()) + text::size_of(ev.file_path.as_str())
        + text::size_of(ev.text.as_str()) + size_of_optional(&ev.cwd) + size_of_optional(
        &ev.git_branch,
    ) + 41;
    size <= 0xffff_ffff
}

/// The document for a record: each part of it in its field, those that are missing
/// left out, and with them a date that is more than about three centuries from 1970,
/// which the index has not.
pub fn event_document(ev: &IndexableEvent, fields: &Fields) -> (r: tantivy::TantivyDocument)
    requires
        event_fits(*ev),
        fields.usable(),
    ensures
        store::doc_values(r) == event_values(*ev, *fields),
{
    let ghost all = event_values(*ev, *fields);
    proof {
        lemma_event_size(*ev, *fields);
        assert(fields.numbers()[0] <= u16::MAX && fields.numbers()[1] <= u16::MAX
            && fields.numbers()[2] <= u16::MAX && fields.numbers()[3] <= u16::MAX
            && fields.numbers()[4] <= u16::MAX && fields.numbers()[5] <= u16::MAX
            && fields.numbers()[6] <= u16::MAX && fields.numbers()[7] <= u16::MAX
            && fields.numbers()[8] <= u16::MAX);
    }
    let mut doc = store::new_document();
    proof {
        store::lemma_has_room(
            doc,
            fields.session_id,
            store::DocValue::Text(ev.session_id@),
            all,
        );
    }
    store::add_text(&mut doc, fields.session_id, ev.session_id.as_str());
    proof {
        store::lemma_has_room(doc, fields.project, store::DocValue::Text(ev.project@), all);
    }
    store::add_text(&mut doc, fields.project, ev.project.as_str());
    proof {
        store::lemma_has_room(doc, fields.event_role, store::DocValue::Text(ev.event_role@), all);
    }
    store::add_text(&mut doc, fields.event_role, ev.event_role.as_str());
    let ghost front = store::doc_values(doc);
    match &ev.timestamp {
        Some(t) => {
            if is_indexable_instant(t) {
                let micros: i64 = t.micros();
                proof {
                    store::lemma_has_room(
                        doc,
                        fields.timestamp,
                        store::DocValue::Date((micros * 1_000) as i64),
                        all,
                    );
                }
                store::add_date(&mut doc, fields.timestamp, micros);
            }
        },
        None => {},
    }
    assert(store::doc_values(doc) =~= front + date_values(ev.timestamp, fields.timestamp));
    let ghost front = store::doc_values(doc);
    match &ev.cwd {
        Some(c) => {
            proof {
                store::lemma_has_room(doc, fields.cwd, store::DocValue::Text(c@), all);
            }
            store::add_text(&mut doc, fields.cwd, c.as_str());
        },
        None => {},
    }
    assert(store::doc_values(doc) =~= front + text_values(ev.cwd, fields.cwd));
    let ghost front = store::doc_values(doc);
    match &ev.git_branch {
        Some(b) => {
            proof {
                store::lemma_has_room(doc, fields.git_branch, store::DocValue::Text(b@), all);
            }
            store::add_text(&mut doc, fields.git_branch, b.as_str());
        },
        None => {},
    }
    assert(store::doc_values(doc) =~= front + text_values(ev.git_branch, fields.git_branch));
    proof {
        store::lemma_has_room(doc, fields.file_path, store::DocValue::Text(ev.file_path@), all);
    }
    store::add_text(&mut doc, fields.file_path, ev.file_path.as_str());
    proof {
        store::lemma_has_room(
            doc,
            fields.event_index,
            store::DocValue::Number(ev.event_index),
            all,
        );
    }
    store::add_number(&mut doc, fields.event_index, ev.event_index);
    proof {
        store::lemma_has_room(doc, fields.text, store::DocValue::Text(ev.text@), all);
    }
    store::add_text(&mut doc, fields.text, ev.text.as_str());
    assert(store::doc_values(doc) =~= all);
    doc
}

/// The term that all documents from one transcript file have, by which they are
/// deleted.
pub fn file_term(fields: &Fields, file_path: &str) -> (r: tantivy::Term)
    ensures
        store::term_parts(r) == (fields.file_path, file_path@),
{
    store::text_term(fields.file_path, file_path)
}

/// What to search for.
#[derive(Debug, Clone, Default)]
pub struct SearchArgs {
    pub query: String,
    pub since: Option<Timestamp>,
    pub project: Option<String>,
    pub limit: Option<usize>,
}

/// Why a search could not be made, and what is wrong with the query.
#[derive(Debug, Clone)]
pub enum SearchError {
    Query(String),
    DateRange(String),
    /// The query nests too deep.
    TooDeep,
}

impl SearchError {
    /// What could not be done.
    pub fn message(&self) -> (r: String)
        ensures
            r@ == match *self {
                SearchError::Query(_) => "parsing query"@,
                SearchError::DateRange(_) => "parsing date range"@,
                SearchError::TooDeep => "query nests too deep"@,
            },
    {
        match self {
            SearchError::Query(_) => "parsing query".to_string(),
            SearchError::DateRange(_) => "parsing date range".to_string(),
            SearchError::TooDeep => "query nests too deep".to_string(),
        }
    }
}

/// A search as the index makes it: what the documents must match, and how many of
/// them to return at most.
pub struct Search {
    pub query: tantivy::query::BooleanQuery,
    pub limit: usize,
}

/// How many results a search returns: ten unless told otherwise, at least one and
/// at most a hundred.
pub open spec fn effective_limit(limit: Option<usize>) -> int {
    match limit {
        None => 10,
        Some(n) => if n < 1 {
            1
        } else if n > 100 {
            100
        } else {
            n as int
        },
    }
}

/// The query for documents from an instant on, to the second.
pub open spec fn since_query(t: Timestamp) -> Seq<char> {
    "timestamp:["@ + clock::rfc3339_seconds(t) + " TO *]"@
}

/// Whether a time window can start in the given second: the index has its start.
pub open spec fn has_start(t: Timestamp) -> bool {
    -9_223_372_036 <= t.secs <= 9_223_372_036
}

/// What the query for documents from an instant on asks of a document: a date that is
/// not before the instant, where the index has the start of its second.
pub open spec fn since_clauses(t: Timestamp, f: Fields) -> Seq<store::Clause> {
    if has_start(t) {
        seq![store::Clause::From(f.timestamp, first_second(t))]
    } else {
        seq![store::Clause::Parsed(f.text, since_query(t))]
    }
}

/// What a search asks of a document: to match the query, which plain words match only
/// together, to be no older than the instant, to belong to the project, and to have the
/// role.
pub open spec fn search_clauses(args: SearchArgs, role: Option<Seq<char>>, f: Fields) -> Seq<
    store::Clause,
> {
    store::asked(event_schema(), f.text, args.query@) + (match args.since {
        Some(t) => since_clauses(t, f),
        None => seq![],
    }) + (match args.project {
        Some(p) => seq![store::Clause::Term(f.project, p@)],
        None => seq![],
    }) + (match role {
        Some(r) => seq![store::Clause::Term(f.event_role, r)],
        None => seq![],
    })
}

/// What is wrong with a query for this index, if anything is.
pub open spec fn event_query_error(query: Seq<char>) -> Option<Seq<char>> {
    store::query_error(event_schema(), event_fields().text, query)
}

/// How many results a search returns.
pub fn clamp_limit(limit: Option<usize>) -> (r: usize)
    ensures
        r == effective_limit(limit),
        1 <= r <= 100,
{
    match limit {
        None => 10,
        Some(n) => if n < 1 {
            1
        } else if n > 100 {
            100
        } else {
            n
        },
    }
}

/// The query for documents from an instant on.
fn since_query_of(t: Timestamp) -> (r: String)
    requires
        t.valid(),
    ensures
        r@ == since_query(t),
        !wording::too_deep(r@),
        !wording::is_plain(r@),
        store::asked(event_schema(), event_fields().text, r@) == since_clauses(t, event_fields()),
        has_start(t) && t.nanos < 1_000_000_000 ==> store::range_from(event_schema(), r@) is Some
            && !store::starts_in_leap(r@),
{
    let iso = clock::format_seconds(t);
    let mut q = "timestamp:[".to_string();
    q.append(iso.as_str());
    q.append(" TO *]");
    proof {
        reveal_strlit("timestamp:[");
        reveal_strlit(" TO *]");
        let (a, b, c) = ("timestamp:["@, iso@, " TO *]"@);
        assert forall|i: int| 0 <= i < q@.len() implies #[trigger] q@[i] != '(' && q@[i] != 'N' by {
            if i < a.len() {
                assert(q@[i] == a[i]);
            } else if i < a.len() + b.len() {
                assert(q@[i] == b[i - a.len()]);
                assert(clock::is_date_char(b[i - a.len()]));
            } else {
                assert(q@[i] == c[i - a.len() - b.len()]);
            }
        }
        wording::lemma_flat(q@);
        lemma_since_query(t);
        lemma_timestamp_is_a_field();
        assert(q@ =~= store::range_text("timestamp"@, iso@)) by {
            reveal_strlit("timestamp");
            reveal_strlit(":[");
            assert("timestamp:["@ =~= "timestamp"@ + ":["@);
        }
        if has_start(t) {
            let read = clock::rfc3339(iso@)->0;
            store::lemma_range_from(event_schema(), 3, iso@, read);
        } else {
            store::lemma_no_range_from(event_schema(), "timestamp"@, iso@);
        }
        assert(store::asked(event_schema(), event_fields().text, q@) =~= since_clauses(
            t,
            event_fields(),
        ));
    }
    q
}

/// The dates of the index are in a field with a name of its own.
proof fn lemma_timestamp_is_a_field()
    ensures
        store::is_field_word("timestamp"@),
        event_schema()[3] == ("timestamp"@, store::FieldKind::Date),
        forall|k: int|
            3 < k < event_schema().len() ==> (#[trigger] event_schema()[k]).0 != "timestamp"@,
{
    reveal_strlit("timestamp");
    reveal_strlit("cwd");
    reveal_strlit("git_branch");
    reveal_strlit("file_path");
    reveal_strlit("event_index");
    reveal_strlit("text");
    assert("file_path"@[0] == 'f' && "timestamp"@[0] == 't');
    assert("cwd"@.len() == 3 && "git_branch"@.len() == 10 && "event_index"@.len() == 11
        && "text"@.len() == 4 && "timestamp"@.len() == 9);
}

/// A query for documents from an instant on is not made of plain words.
proof fn lemma_since_query(t: Timestamp)
    ensures
        !wording::is_plain(since_query(t)),
{
    reveal_strlit("timestamp:[");
    let s = since_query(t);
    assert(s[9] == "timestamp:["@[9]);
    assert(!wording::is_plain_char(s[9]));
}

/// The search for the given arguments among the records with any role. It fails
/// where the query nests too deep, and where it, or else the time range, cannot be read
/// as a query.
pub fn search_query(args: &SearchArgs) -> (r: Result<Search, SearchError>)
    requires
        args.since matches Some(t) ==> t.valid(),
    ensures
        searches(r, *args, None),
        wording::is_plain(args.query@) && (args.since matches Some(t) ==> has_start(t) && t.nanos
            < 1_000_000_000) ==> r is Ok,
{
    search_query_in_role(args, None)
}

/// Whether this is the search for the given arguments among the records with a
/// role, or what is wrong with them.
pub open spec fn searches(
    r: Result<Search, SearchError>,
    args: SearchArgs,
    role: Option<Seq<char>>,
) -> bool {
    match r {
        Ok(s) => !wording::too_deep(args.query@) && event_query_error(args.query@) is None && (
        args.since matches Some(t) ==> event_query_error(since_query(t)) is None)
            && store::query_clauses(s.query) == search_clauses(args, role, event_fields())
            && s.limit == effective_limit(args.limit),
        Err(SearchError::TooDeep) => wording::too_deep(args.query@),
        Err(SearchError::Query(e)) => !wording::too_deep(args.query@) && !wording::is_plain(args.query@)
            && event_query_error(args.query@) == Some(e@),
        Err(SearchError::DateRange(e)) => !wording::too_deep(args.query@) && event_query_error(
            args.query@,
        ) is None && (args.since matches Some(t) && event_query_error(since_query(t)) == Some(e@)),
    }
}

/// The search for the given arguments among the records with a role.
pub fn search_query_in_role(args: &SearchArgs, role: Option<&str>) -> (r: Result<
    Search,
    SearchError,
>)
    requires
        args.since matches Some(t) ==> t.valid(),
    ensures
        searches(
            r,
            *args,
            match role {
                Some(s) => Some(s@),
                None => None,
            },
        ),
        wording::is_plain(args.query@) && (args.since matches Some(t) ==> has_start(t) && t.nanos
            < 1_000_000_000) ==> r is Ok,
{
    proof {
        if wording::is_plain(args.query@) {
            wording::law_plain_is_not_too_deep(args.query@);
        }
    }
    if wording::is_too_deep(args.query.as_str()) {
        return Err(SearchError::TooDeep);
    }
    let (schema, fields) = build_schema();
    let mut query = match store::parsed_query(&schema, fields.text, args.query.as_str()) {
        Ok(q) => q,
        Err(e) => return Err(SearchError::Query(e)),
    };
    match args.since {
        Some(t) => {
            let range = since_query_of(t);
            match store::parsed_query(&schema, fields.text, range.as_str()) {
                Ok(q) => {
                    query = store::both_queries(&query, &q);
                },
                Err(e) => return Err(SearchError::DateRange(e)),
            }
        },
        None => {},
    }
    match &args.project {
        Some(p) => {
            let q = store::term_query(store::text_term(fields.project, p.as_str()));
            query = store::both_queries(&query, &q);
        },
        None => {},
    }
    match role {
        Some(s) => {
            let q = store::term_query(store::text_term(fields.event_role, s));
            query = store::both_queries(&query, &q);
        },
        None => {},
    }
    assert(store::query_clauses(query) =~= search_clauses(
        *args,
        match role {
            Some(s) => Some(s@),
            None => None,
        },
        event_fields(),
    ));
    Ok(Search { query, limit: clamp_limit(args.limit) })
}

/// A filter only narrows a search: whatever else is asked, a document has to match
/// the query, and each filter asks for one thing more.
pub proof fn law_filters_narrow(args: SearchArgs, role: Option<Seq<char>>, f: Fields)
    ensures
        store::asked(event_schema(), f.text, args.query@).is_prefix_of(search_clauses(args, role, f)),
        search_clauses(args, None, f).is_prefix_of(search_clauses(args, role, f)),
        search_clauses(args, role, f).len() == store::asked(event_schema(), f.text, args.query@).len() + (
        if args.since is Some {
            1int
        } else {
            0int
        }) + (if args.project is Some {
            1int
        } else {
            0int
        }) + (if role is Some {
            1int
        } else {
            0int
        }),
{
}

/// A query of plain words asks for all of them: a document has to hold each, whatever
/// its case.
pub proof fn law_every_word_is_asked(args: SearchArgs, role: Option<Seq<char>>, f: Fields, at: int)
    requires
        wording::is_plain(args.query@),
        0 <= at < text::words(args.query@).len(),
    ensures
        search_clauses(args, role, f).contains(
            store::Clause::Word(f.text, text::lowercase(text::words(args.query@)[at])),
        ),
{
    assert(search_clauses(args, role, f)[at] == store::Clause::Word(
        f.text,
        text::lowercase(text::words(args.query@)[at]),
    ));
}

/// A result of a search. The score is kept as the bits of a 32-bit float.
#[derive(Debug, Clone)]
pub struct SearchHit {
    pub session_id: String,
    pub project: String,
    pub event_role: String,
    pub timestamp: Option<String>,
    pub file_path: String,
    pub event_index: u64,
    pub snippet: String,
    pub score_bits: u32,
}

/// What a result of a search says.
#[verifier::ext_equal]
pub struct HitView {
    pub session_id: Seq<char>,
    pub project: Seq<char>,
    pub event_role: Seq<char>,
    pub timestamp: Option<Seq<char>>,
    pub file_path: Seq<char>,
    pub event_index: u64,
    pub snippet: Seq<char>,
    pub score_bits: u32,
}

impl View for SearchHit {
    type V = HitView;

    open spec fn view(&self) -> HitView {
        HitView {
            session_id: self.session_id@,
            project: self.project@,
            event_role: self.event_role@,
            timestamp: text::view_of(self.timestamp),
            file_path: self.file_path@,
            event_index: self.event_index,
            snippet: self.snippet@,
            score_bits: self.score_bits,
        }
    }
}

/// The length of the snippets of transcripts.
pub const SNIPPET_CHARS: usize = 140;

/// A text, or none.
pub open spec fn or_empty(s: Option<Seq<char>>) -> Seq<char> {
    match s {
        Some(t) => t,
        None => seq![],
    }
}

/// The result that a document with the given values is shown as.
pub open spec fn hit_of(
    values: Seq<(u32, store::DocValue)>,
    f: Fields,
    score_bits: u32,
    query: Seq<char>,
) -> HitView {
    HitView {
        session_id: or_empty(store::text_value(values, f.session_id)),
        project: or_empty(store::text_value(values, f.project)),
        event_role: or_empty(store::text_value(values, f.event_role)),
        timestamp: match store::date_value(values, f.timestamp) {
            Some(secs) => if clock::in_calendar(secs) {
                Some(clock::rfc3339_offset(secs as i64))
            } else {
                None
            },
            None => None,
        },
        file_path: or_empty(store::text_value(values, f.file_path)),
        event_index: match store::number_value(values, f.event_index) {
            Some(n) => n,
            None => 0,
        },
        snippet: snippet::snippet(
            or_empty(store::text_value(values, f.text)),
            query,
            SNIPPET_CHARS as nat,
        ),
        score_bits,
    }
}

/// A document's text in a field, or none.
pub(crate) fn text_or_empty(doc: &tantivy::TantivyDocument, field: u32) -> (r: String)
    ensures
        r@ == or_empty(store::text_value(store::doc_values(*doc), field)),
{
    match store::first_text(doc, field) {
        Some(s) => s,
        None => String::new(),
    }
}

impl SearchHit {
    /// The result that a document is shown as.
    pub fn from_doc(
        doc: &tantivy::TantivyDocument,
        fields: &Fields,
        score_bits: u32,
        query: &str,
    ) -> (r: SearchHit)
        ensures
            r@ == hit_of(store::doc_values(*doc), *fields, score_bits, query@),
    {
        let body = text_or_empty(doc, fields.text);
        let timestamp: Option<String> = match store::first_date(doc, fields.timestamp) {
            Some(secs) => clock::format_offset(secs),
            None => None,
        };
        let event_index: u64 = match store::first_u64(doc, fields.event_index) {
            Some(n) => n,
            None => 0,
        };
        SearchHit {
            session_id: text_or_empty(doc, fields.session_id),
            project: text_or_empty(doc, fields.project),
            event_role: text_or_empty(doc, fields.event_role),
            timestamp,
            file_path: text_or_empty(doc, fields.file_path),
            event_index,
            snippet: snippet::make_snippet(body.as_str(), query, SNIPPET_CHARS),
            score_bits,
        }
    }
}

/// The results for the documents that a search found, each with its score, in the
/// order in which it found them.
pub fn collect_hits(
    docs: &Vec<(u32, tantivy::TantivyDocument)>,
    fields: &Fields,
    query: &str,
) -> (r: Vec<SearchHit>)
    ensures
        r@.len() == docs@.len(),
        forall|i: int|
            0 <= i < r@.len() ==> (#[trigger] r@[i])@ == hit_of(
                store::doc_values(docs@[i].1),
                *fields,
                docs@[i].0,
                query@,
            ),
{
    let mut hits: Vec<SearchHit> = Vec::new();
    let mut i: usize = 0;
    while i < docs.len()
        invariant
            i <= docs.len(),
            hits@.len() == i,
            forall|k: int|
                0 <= k < i ==> (#[trigger] hits@[k])@ == hit_of(
                    store::doc_values(docs@[k].1),
                    *fields,
                    docs@[k].0,
                    query@,
                ),
        decreases docs.len() - i,
    {
        let (score_bits, doc) = &docs[i];
        hits.push(SearchHit::from_doc(doc, fields, *score_bits, query));
        i += 1;
    }
    hits
}

/// What a search returns of a record is what was indexed: its session, project,
/// role, file and place, the snippet of its text, and its instant in whole seconds, as
/// it is kept.
pub proof fn law_hit_gives_back_event(ev: IndexableEvent, f: Fields, score_bits: u32, query: Seq<char>)
    requires
        f.distinct(),
    ensures
        hit_of(event_values(ev, f), f, score_bits, query).session_id == ev.session_id@,
        hit_of(event_values(ev, f), f, score_bits, query).project == ev.project@,
        hit_of(event_values(ev, f), f, score_bits, query).event_role == ev.event_role@,
        hit_of(event_values(ev, f), f, score_bits, query).file_path == ev.file_path@,
        hit_of(event_values(ev, f), f, score_bits, query).event_index == ev.event_index,
        hit_of(event_values(ev, f), f, score_bits, query).snippet == snippet::snippet(
            ev.text@,
            query,
            140,
        ),
        hit_of(event_values(ev, f), f, score_bits, query).score_bits == score_bits,
        (ev.timestamp matches Some(t) ==> !indexable_instant(t)) ==> hit_of(
            event_values(ev, f),
            f,
            score_bits,
            query,
        ).timestamp is None,
        ev.timestamp matches Some(t) ==> indexable_instant(t) ==> hit_of(
            event_values(ev, f),
            f,
            score_bits,
            query,
        ).timestamp == Some(
            clock::rfc3339_offset(store::whole_seconds(t.micros_spec() * 1_000) as i64),
        ),
        ev.timestamp matches Some(t) ==> t.secs >= 0 && t.nanos < 1_000_000_000
            && indexable_instant(t) ==> store::whole_seconds(t.micros_spec() * 1_000) == t.secs,
{
    lemma_numbers(f);
    lemma_value_of(ev, f, f.session_id);
    lemma_value_of(ev, f, f.project);
    lemma_value_of(ev, f, f.event_role);
    lemma_value_of(ev, f, f.timestamp);
    lemma_value_of(ev, f, f.file_path);
    lemma_value_of(ev, f, f.event_index);
    lemma_value_of(ev, f, f.text);
}

proof fn lemma_numbers(f: Fields)
    requires
        f.distinct(),
    ensures
        f.session_id != f.project,
        f.session_id != f.event_role,
        f.project != f.event_role,
        f.session_id != f.timestamp,
        f.project != f.timestamp,
        f.event_role != f.timestamp,
        f.file_path != f.session_id,
        f.file_path != f.project,
        f.file_path != f.event_role,
        f.file_path != f.timestamp,
        f.file_path != f.cwd,
        f.file_path != f.git_branch,
        f.event_index != f.session_id,
        f.event_index != f.project,
        f.event_index != f.event_role,
        f.event_index != f.timestamp,
        f.event_index != f.cwd,
        f.event_index != f.git_branch,
        f.event_index != f.file_path,
        f.text != f.session_id,
        f.text != f.project,
        f.text != f.event_role,
        f.text != f.timestamp,
        f.text != f.cwd,
        f.text != f.git_branch,
        f.text != f.file_path,
        f.text != f.event_index,
        f.timestamp != f.cwd,
        f.timestamp != f.git_branch,
{
    let n = f.numbers();
    assert(n[0] == f.session_id && n[1] == f.project && n[2] == f.event_role && n[3] == f.timestamp
        && n[4] == f.cwd && n[5] == f.git_branch && n[6] == f.file_path && n[7] == f.event_index
        && n[8] == f.text);
}

/// The first whole second that is not before an instant to the second. A leap second is
/// before the next.
pub open spec fn first_second(t: Timestamp) -> int {
    if t.nanos < 1_000_000_000 {
        t.secs as int
    } else {
        t.secs + 1
    }
}

/// What the query for documents from an instant on asks of a document: to have a date,
/// and one that, in whole seconds, is not before the instant.
pub open spec fn is_since(values: Seq<(u32, store::DocValue)>, field: u32, t: Timestamp) -> bool {
    store::date_value(values, field) matches Some(n) && n >= first_second(t)
}

/// Whether a document with the given values meets a search, its time window among what
/// it asks for.
pub open spec fn meets_search(
    values: Seq<(u32, store::DocValue)>,
    args: SearchArgs,
    role: Option<Seq<char>>,
    f: Fields,
) -> bool {
    store::meets_all(values, search_clauses(args, role, f)) && (args.since matches Some(t)
        ==> is_since(values, f.timestamp, t))
}

/// A search for plain words is met by the records whose text holds every one of them,
/// whatever their case, and which are of the project, have the role and are in the time
/// window that it asks for, and by no others. A record without a date, or with one that
/// the index has not, is in no window; the others are shown with theirs. A window starts
/// at the second of its instant, or at the next where that is a leap second, and has no
/// end. Of what another query looks for nothing is said, unless it is a range of dates
/// itself, nor of a window that starts at an instant which the index has not.
pub proof fn law_search_is_met(
    ev: IndexableEvent,
    args: SearchArgs,
    role: Option<Seq<char>>,
    f: Fields,
    score_bits: u32,
)
    requires
        f.distinct(),
        args.since matches Some(t) ==> indexable_instant(t),
    ensures
        ({
            let met = (if wording::is_plain(args.query@) {
                store::holds_words(ev.text@, args.query@)
            } else {
                store::range_from(event_schema(), args.query@) matches Some(range)
                    ==> store::date_value(event_values(ev, f), range.0) matches Some(n) && n
                    >= range.1
            }) && (args.project matches Some(p) ==> ev.project@ == p@) && (role matches Some(r)
                ==> ev.event_role@ == r) && (args.since matches Some(t)
                ==> ev.timestamp matches Some(u) && indexable_instant(u) && store::whole_seconds(
                u.micros_spec() * 1_000,
            ) >= (if t.nanos < 1_000_000_000 {
                t.secs as int
            } else {
                t.secs + 1
            }));
            &&& meets_search(event_values(ev, f), args, role, f) <==> met
            &&& (args.since matches Some(t) ==> -9_223_372_036 <= t.secs) ==> (store::meets_all(
                event_values(ev, f),
                search_clauses(args, role, f),
            ) <==> met)
        }),
        meets_search(event_values(ev, f), args, role, f) && args.since is Some ==> hit_of(
            event_values(ev, f),
            f,
            score_bits,
            args.query@,
        ).timestamp is Some,
{
    let values = event_values(ev, f);
    let words = store::asked(event_schema(), f.text, args.query@);
    let since = match args.since {
        Some(t) => since_clauses(t, f),
        None => seq![],
    };
    let project = match args.project {
        Some(p) => seq![store::Clause::Term(f.project, p@)],
        None => seq![],
    };
    let roles = match role {
        Some(r) => seq![store::Clause::Term(f.event_role, r)],
        None => seq![],
    };
    lemma_numbers(f);
    lemma_value_of(ev, f, f.project);
    lemma_value_of(ev, f, f.event_role);
    lemma_value_of(ev, f, f.text);
    lemma_value_of(ev, f, f.timestamp);
    store::lemma_meets_words(values, event_schema(), f.text, args.query@, ev.text@);
    law_hit_gives_back_event(ev, f, score_bits, args.query@);
    store::lemma_meets_concat(values, words + since + project, roles);
    store::lemma_meets_concat(values, words + since, project);
    store::lemma_meets_concat(values, words, since);
    if let Some(p) = args.project {
        store::lemma_meets_one(values, f.project, p@);
    }
    if let Some(r) = role {
        store::lemma_meets_one(values, f.event_role, r);
    }
    if let Some(t) = args.since {
        store::lemma_meets_from(values, f.timestamp, first_second(t));
        if !has_start(t) {
            let one = seq![store::Clause::Parsed(f.text, since_query(t))];
            assert(since == one && one[0] == store::Clause::Parsed(f.text, since_query(t)));
            assert(store::meets_all(values, one));
        }
    }
}

/// A time window narrows a search to the records from its start on, and to nothing else:
/// a record meets the search with the window exactly where it meets the search without it
/// and its date, from 1970 on, is of the second in which the window starts or of a later
/// one. A record without a date meets none with a window.
pub proof fn law_window_is_from_its_start(
    ev: IndexableEvent,
    args: SearchArgs,
    t: Timestamp,
    role: Option<Seq<char>>,
    f: Fields,
)
    requires
        f.distinct(),
        indexable_instant(t),
        -9_223_372_036 <= t.secs,
        t.nanos < 1_000_000_000,
    ensures
        ({
            let (windowed, open) = (
                SearchArgs { since: Some(t), ..args },
                SearchArgs { since: None, ..args },
            );
            let met = store::meets_all(event_values(ev, f), search_clauses(windowed, role, f));
            &&& met ==> store::meets_all(event_values(ev, f), search_clauses(open, role, f))
            &&& store::meets_all(event_values(ev, f), search_clauses(open, role, f)) ==> (
            ev.timestamp matches Some(u) ==> indexable_instant(u) && u.secs >= 0 && u.nanos
                < 1_000_000_000 ==> (met <==> u.secs >= t.secs))
            &&& ev.timestamp is None ==> !met
        }),
{
    let windowed = SearchArgs { since: Some(t), ..args };
    let open = SearchArgs { since: None, ..args };
    law_search_is_met(ev, windowed, role, f, 0);
    law_search_is_met(ev, open, role, f, 0);
    if let Some(u) = ev.timestamp {
        if u.secs >= 0 && u.nanos < 1_000_000_000 {
            let micros = u.nanos as int / 1_000;
            assert(u.micros_spec() * 1_000 == u.secs * 1_000_000_000 + micros * 1_000);
            assert(0 <= micros * 1_000 < 1_000_000_000);
        }
    }
}

/// Which value of a record's document is the first of a field.
proof fn lemma_value_of(ev: IndexableEvent, f: Fields, field: u32)
    ensures
        store::first_value(event_values(ev, f), field) == if field == f.session_id {
            Some(store::DocValue::Text(ev.session_id@))
        } else if field == f.project {
            Some(store::DocValue::Text(ev.project@))
        } else if field == f.event_role {
            Some(store::DocValue::Text(ev.event_role@))
        } else if field == f.timestamp && ev.timestamp is Some && indexable_instant(
            ev.timestamp->0,
        ) {
            Some(store::DocValue::Date((ev.timestamp->0.micros_spec() * 1_000) as i64))
        } else if field == f.cwd && ev.cwd is Some {
            Some(store::DocValue::Text(ev.cwd->0@))
        } else if field == f.git_branch && ev.git_branch is Some {
            Some(store::DocValue::Text(ev.git_branch->0@))
        } else if field == f.file_path {
            Some(store::DocValue::Text(ev.file_path@))
        } else if field == f.event_index {
            Some(store::DocValue::Number(ev.event_index))
        } else if field == f.text {
            Some(store::DocValue::Text(ev.text@))
        } else {
            None
        },
{
    reveal_with_fuel(store::first_value, 4);
    let a = seq![
        (f.session_id, store::DocValue::Text(ev.session_id@)),
        (f.project, store::DocValue::Text(ev.project@)),
        (f.event_role, store::DocValue::Text(ev.event_role@)),
    ];
    let b = date_values(ev.timestamp, f.timestamp);
    let c = text_values(ev.cwd, f.cwd);
    let d = text_values(ev.git_branch, f.git_branch);
    let e = seq![
        (f.file_path, store::DocValue::Text(ev.file_path@)),
        (f.event_index, store::DocValue::Number(ev.event_index)),
        (f.text, store::DocValue::Text(ev.text@)),
    ];
    store::lemma_first_value_concat(a + b + c + d, e, field);
    store::lemma_first_value_concat(a + b + c, d, field);
    store::lemma_first_value_concat(a + b, c, field);
    store::lemma_first_value_concat(a, b, field);
}

/// Why a text tells no time window.
#[derive(Clone, Copy, Debug, PartialEq, Eq, Structural)]
pub enum SinceError {
    /// It is neither a date nor a number with a unit.
    Value,
    /// The unit is none of `s`, `m`, `h`, `d` and `w`.
    Unit,
    /// The calendar does not go back, or forward, that far.
    OutOfRange,
}

impl SinceError {
    /// What is wrong with the text.
    pub fn message(&self, s: &str) -> (r: String)
        ensures
            r@ == (match *self {
                SinceError::Value => "invalid --since value: "@,
                SinceError::Unit => "invalid time unit in --since: "@,
                SinceError::OutOfRange => "--since value out of range: "@,
            }) + s@,
    {
        let mut out = match self {
            SinceError::Value => "invalid --since value: ".to_string(),
            SinceError::Unit => "invalid time unit in --since: ".to_string(),
            SinceError::OutOfRange => "--since value out of range: ".to_string(),
        };
        out.append(s);
        out
    }
}

/// Whether a text is digits only.
pub open spec fn all_digits(s: Seq<char>) -> bool {
    forall|i: int| 0 <= i < s.len() ==> text::is_digit(#[trigger] s[i])
}

/// The number that digits stand for.
pub open spec fn digits_value(s: Seq<char>) -> int
    decreases s.len(),
{
    if s.len() == 0 {
        0
    } else {
        digits_value(s.drop_last()) * 10 + (s.last() as int - '0' as int)
    }
}

/// The 64-bit number that a text stands for: digits, with or without a sign in
/// front.
pub open spec fn signed_number(s: Seq<char>) -> Option<int> {
    let signed = s.len() > 0 && (s[0] == '+' || s[0] == '-');
    let digits = if signed {
        s.skip(1)
    } else {
        s
    };
    let value = if signed && s[0] == '-' {
        -digits_value(digits)
    } else {
        digits_value(digits)
    };
    if digits.len() > 0 && all_digits(digits) && i64::MIN <= value <= i64::MAX {
        Some(value)
    } else {
        None
    }
}

/// How many seconds a unit of time has.
pub open spec fn unit_seconds(c: char) -> Option<int> {
    if c == 's' {
        Some(1)
    } else if c == 'm' {
        Some(60)
    } else if c == 'h' {
        Some(3_600)
    } else if c == 'd' {
        Some(86_400)
    } else if c == 'w' {
        Some(604_800)
    } else {
        None
    }
}

/// The start of the time window that a number with a unit tells, given the time.
pub open spec fn relative_start(s: Seq<char>, now: Timestamp) -> Result<Timestamp, SinceError> {
    if text::byte_len(s) < 2 {
        Err(SinceError::Value)
    } else {
        match (signed_number(s.drop_last()), unit_seconds(s.last())) {
            (None, _) => Err(SinceError::Value),
            (Some(_), None) => Err(SinceError::Unit),
            (Some(n), Some(unit)) => if clock::in_calendar(now.secs - n * unit) {
                Ok(Timestamp { secs: (now.secs - n * unit) as i64, nanos: now.nanos })
            } else {
                Err(SinceError::OutOfRange)
            },
        }
    }
}

/// The start of the time window that a text tells, given the time: an ISO date and
/// time, an ISO date, which starts at midnight in UTC, or a number with a unit.
pub open spec fn since_start(s: Seq<char>, now: Timestamp) -> Result<Timestamp, SinceError> {
    match (clock::rfc3339(s), clock::rfc3339(s + "T00:00:00Z"@)) {
        (Some(t), _) => Ok(t),
        (None, Some(t)) => Ok(t),
        (None, None) => relative_start(s, now),
    }
}

/// Whether a text is a number with a unit of time.
pub open spec fn is_relative(s: Seq<char>) -> bool {
    s.len() > 0 && signed_number(s.drop_last()) is Some && unit_seconds(s.last()) is Some
}

/// How many seconds a number with a unit of time comes to.
pub open spec fn relative_seconds(s: Seq<char>) -> int {
    signed_number(s.drop_last())->0 * unit_seconds(s.last())->0
}

/// A number with a unit of time has no dash in the place where a date has its first,
/// nor has it with a time of day behind it.
proof fn lemma_relative_is_no_date(s: Seq<char>)
    requires
        is_relative(s),
    ensures
        s.len() > 4 ==> s[4] != '-',
        (s + "T00:00:00Z"@)[4] != '-',
{
    reveal_strlit("T00:00:00Z");
    let t = "T00:00:00Z"@;
    assert(t.len() == 10 && t[0] == 'T' && t[1] == '0' && t[2] == '0' && t[3] == ':' && t[4]
        == '0');
    let num = s.drop_last();
    if s.len() > 4 {
        if s.len() == 5 {
            assert(s[4] == s.last());
        } else {
            assert(num[4] == s[4]);
            if num[0] == '+' || num[0] == '-' {
                assert(num.skip(1)[3] == num[4]);
                assert(text::is_digit(num.skip(1)[3]));
            } else {
                assert(text::is_digit(num[4]));
            }
        }
    } else {
        assert((s + t)[4] == t[4 - s.len()]);
    }
}

/// More digits make no smaller number.
proof fn lemma_digits_grow(s: Seq<char>, k: int)
    requires
        all_digits(s),
        0 <= k <= s.len(),
    ensures
        0 <= digits_value(s.take(k)) <= digits_value(s),
    decreases s.len(),
{
    if k < s.len() {
        let t = s.drop_last();
        assert forall|i: int| 0 <= i < t.len() implies text::is_digit(#[trigger] t[i]) by {
            assert(t[i] == s[i]);
        }
        lemma_digits_grow(t, k);
        assert(t.take(k) =~= s.take(k));
        assert(text::is_digit(s[s.len() - 1]));
    } else {
        assert(s.take(k) =~= s);
        lemma_digits_not_negative(s);
    }
}

proof fn lemma_digits_not_negative(s: Seq<char>)
    requires
        all_digits(s),
    ensures
        0 <= digits_value(s),
    decreases s.len(),
{
    if s.len() > 0 {
        let t = s.drop_last();
        assert forall|i: int| 0 <= i < t.len() implies text::is_digit(#[trigger] t[i]) by {
            assert(t[i] == s[i]);
        }
        lemma_digits_not_negative(t);
        assert(text::is_digit(s[s.len() - 1]));
    }
}

/// The 64-bit number that the first `len` characters stand for.
fn parse_number(v: &Vec<char>, len: usize) -> (r: Option<i64>)
    requires
        len <= v.len(),
    ensures
        match r {
            Some(n) => signed_number(v@.take(len as int)) == Some(n as int),
            None => signed_number(v@.take(len as int)) is None,
        },
{
    let ghost s = v@.take(len as int);
    let signed: bool = len > 0 && (v[0] == '+' || v[0] == '-');
    let negative: bool = signed && v[0] == '-';
    let from: usize = if signed {
        1
    } else {
        0
    };
    let ghost digits = s.skip(from as int);
    assert(!signed ==> digits =~= s);
    if from == len {
        return None;
    }
    let mut value: i128 = 0;
    let mut i: usize = from;
    assert(digits.take(0) =~= seq![]);
    while i < len
        invariant
            from <= i <= len <= v.len(),
            from < len,
            s == v@.take(len as int),
            digits == s.skip(from as int),
            signed == (len > 0 && (s[0] == '+' || s[0] == '-')),
            negative == (signed && s[0] == '-'),
            from == if signed {
                1int
            } else {
                0int
            },
            !signed ==> digits == s,
            0 <= value <= 0x8000_0000_0000_0000,
            all_digits(digits.take(i - from)),
            value == digits_value(digits.take(i - from)),
        decreases len - i,
    {
        let c: char = v[i];
        assert(digits[i - from] == c);
        if !('0' <= c && c <= '9') {
            assert(!text::is_digit(digits[i - from]));
            return None;
        }
        let d: i128 = (c as u32 - '0' as u32) as i128;
        let next: i128 = value * 10 + d;
        proof {
            let t = digits.take(i + 1 - from);
            assert(t.drop_last() =~= digits.take(i - from));
            assert(digits_value(t) == next);
            assert forall|k: int| 0 <= k < t.len() implies text::is_digit(#[trigger] t[k]) by {
                if k < i - from {
                    assert(digits.take(i - from)[k] == t[k]);
                }
            }
            if all_digits(digits) {
                lemma_digits_grow(digits, i + 1 - from);
            }
        }
        if next > 0x8000_0000_0000_0000 {
            return None;
        }
        value = next;
        i += 1;
    }
    assert(digits.take(i - from) =~= digits);
    if negative {
        Some((0 - value) as i64)
    } else if value <= 0x7fff_ffff_ffff_ffff {
        Some(value as i64)
    } else {
        None
    }
}

/// The start of the time window that a number with a unit tells, such as `3d`, `2w`
/// or `5h`, counted back from the given time.
pub fn relative_since(s: &str, now: Timestamp) -> (r: Result<Timestamp, SinceError>)
    requires
        now.valid(),
        now.nanos < 1_000_000_000,
    ensures
        r == relative_start(s@, now),
        r matches Ok(t) ==> t.valid(),
{
    proof {
        text::lemma_byte_len(s@);
    }
    if s.as_bytes().len() < 2 {
        return Err(SinceError::Value);
    }
    let v = chars_of(s);
    proof {
        if v@.len() == 0 {
            assert(text::byte_len(s@) == 0);
        }
        assert(v@.take(v@.len() - 1) =~= s@.drop_last());
    }
    let n: i64 = match parse_number(&v, v.len() - 1) {
        Some(n) => n,
        None => return Err(SinceError::Value),
    };
    let c: char = v[v.len() - 1];
    let unit: i128 = if c == 's' {
        1
    } else if c == 'm' {
        60
    } else if c == 'h' {
        3_600
    } else if c == 'd' {
        86_400
    } else if c == 'w' {
        604_800
    } else {
        return Err(SinceError::Unit);
    };
    let back: i128 = (n as i128) * unit;
    let secs: i128 = now.secs as i128 - back;
    if secs < clock::MIN_SECS as i128 || secs > clock::MAX_SECS as i128 {
        return Err(SinceError::OutOfRange);
    }
    match clock::seconds_before(now, back as i64) {
        Some(t) => Ok(t),
        None => Err(SinceError::OutOfRange),
    }
}

/// The start of the time window that a text tells, given the time.
pub fn parse_since_at(s: &str, now: Timestamp) -> (r: Result<Timestamp, SinceError>)
    requires
        now.valid(),
        now.nanos < 1_000_000_000,
    ensures
        r == since_start(s@, now),
        is_relative(s@) ==> r == relative_start(s@, now),
        r matches Ok(t) ==> t.valid(),
{
    proof {
        if is_relative(s@) {
            lemma_relative_is_no_date(s@);
        }
    }
    match clock::parse_rfc3339(s) {
        Some(t) => return Ok(t),
        None => {},
    }
    let mut midnight = s.to_string();
    midnight.append("T00:00:00Z");
    match clock::parse_rfc3339(midnight.as_str()) {
        Some(t) => Ok(t),
        None => relative_since(s, now),
    }
}

/// The start of the time window that a text tells, at the time of the call: an ISO
/// date and time, an ISO date, or a number with a unit such as `3d`, `2w` or `5h`.
pub fn parse_since(s: &str) -> (r: Result<Timestamp, SinceError>)
    ensures
        exists|now: Timestamp|
            now.valid() && now.secs >= 0 && now.nanos < 1_000_000_000 && r == #[trigger] since_start(
                s@,
                now,
            ) && (is_relative(s@) ==> r == relative_start(s@, now)),
        r matches Ok(t) ==> t.valid(),
{
    let now = clock::utc_now();
    parse_since_at(s, now)
}

/// A time window of the same length ends up later by as much as the time it is
/// counted from.
pub proof fn law_relative_window_moves_with_time(s: Seq<char>, a: Timestamp, b: Timestamp)
    requires
        relative_start(s, a) is Ok,
        relative_start(s, b) is Ok,
    ensures
        relative_start(s, b)->Ok_0.secs - relative_start(s, a)->Ok_0.secs == b.secs - a.secs,
        relative_start(s, b)->Ok_0.nanos == b.nanos,
{
}

/// A number with a unit of time tells the window that starts so many seconds before
/// now, wherever the calendar goes back, or forward, that far.
pub proof fn law_relative_window_starts_before_now(s: Seq<char>, now: Timestamp)
    requires
        is_relative(s),
    ensures
        relative_start(s, now) == if clock::in_calendar(now.secs - relative_seconds(s)) {
            Ok::<Timestamp, SinceError>(
                Timestamp { secs: (now.secs - relative_seconds(s)) as i64, nanos: now.nanos },
            )
        } else {
            Err(SinceError::OutOfRange)
        },
{
    text::lemma_byte_len(s);
    let n = s.len() as int;
    if n < 2 {
        assert(s.drop_last().len() == 0);
    }
    text::lemma_byte_len_take(s, 0, n);
    assert(s.take(n) =~= s);
}

/// Two numbers with units that come to as many seconds tell the same window.
pub proof fn law_same_seconds_same_window(s: Seq<char>, t: Seq<char>, now: Timestamp)
    requires
        is_relative(s),
        is_relative(t),
        relative_seconds(s) == relative_seconds(t),
    ensures
        relative_start(s, now) == relative_start(t, now),
{
    law_relative_window_starts_before_now(s, now);
    law_relative_window_starts_before_now(t, now);
}

/// A number with a unit that comes to more seconds tells a window that starts
/// earlier.
pub proof fn law_more_seconds_earlier_window(s: Seq<char>, t: Seq<char>, now: Timestamp)
    requires
        is_relative(s),
        is_relative(t),
        relative_seconds(s) < relative_seconds(t),
        relative_start(s, now) is Ok,
        relative_start(t, now) is Ok,
    ensures
        relative_start(t, now)->Ok_0.secs < relative_start(s, now)->Ok_0.secs,
{
    law_relative_window_starts_before_now(s, now);
    law_relative_window_starts_before_now(t, now);
}

/// A search returns ten results unless told otherwise, as many as it is told from one to a
/// hundred, and never none or more: a larger number never gives fewer.
pub proof fn law_limit_is_kept_in_bounds(a: usize, b: usize)
    ensures
        effective_limit(None) == 10,
        1 <= a <= 100 ==> effective_limit(Some(a)) == a,
        1 <= effective_limit(Some(a)) <= 100,
        a <= b ==> effective_limit(Some(a)) <= effective_limit(Some(b)),
{
}

/// The document for a record holds each of its parts in the field of that name, once, and
/// nothing else: a working directory, a branch and a date only where the record has them,
/// the date in microseconds, where it fits 64 bits of nanoseconds.
pub proof fn law_document_holds_record(ev: IndexableEvent, f: Fields)
    requires
        f.distinct(),
    ensures
        ({
            let values = event_values(ev, f);
            let dated = ev.timestamp matches Some(t) && t.valid() && i64::MIN <= (t.secs * 1_000_000
                + t.nanos as int / 1_000) * 1_000 <= i64::MAX;
            &&& store::text_value(values, f.session_id) == Some(ev.session_id@)
            &&& store::text_value(values, f.project) == Some(ev.project@)
            &&& store::text_value(values, f.event_role) == Some(ev.event_role@)
            &&& store::text_value(values, f.cwd) == text::view_of(ev.cwd)
            &&& store::text_value(values, f.git_branch) == text::view_of(ev.git_branch)
            &&& store::text_value(values, f.file_path) == Some(ev.file_path@)
            &&& store::number_value(values, f.event_index) == Some(ev.event_index)
            &&& store::text_value(values, f.text) == Some(ev.text@)
            &&& dated ==> (store::first_value(values, f.timestamp) matches Some(v)
                && v matches store::DocValue::Date(n) && n == (ev.timestamp->0.secs * 1_000_000
                + ev.timestamp->0.nanos as int / 1_000) * 1_000)
            &&& !dated ==> store::first_value(values, f.timestamp) is None
            &&& values.len() == 6 + (if dated {
                1int
            } else {
                0int
            }) + (if ev.cwd is Some {
                1int
            } else {
                0int
            }) + (if ev.git_branch is Some {
                1int
            } else {
                0int
            })
        }),
{
    lemma_numbers(f);
    lemma_value_of(ev, f, f.session_id);
    lemma_value_of(ev, f, f.project);
    lemma_value_of(ev, f, f.event_role);
    lemma_value_of(ev, f, f.timestamp);
    lemma_value_of(ev, f, f.cwd);
    lemma_value_of(ev, f, f.git_branch);
    lemma_value_of(ev, f, f.file_path);
    lemma_value_of(ev, f, f.event_index);
    lemma_value_of(ev, f, f.text);
    let n = f.numbers();
    assert(n[4] == f.cwd && n[5] == f.git_branch && n[6] == f.file_path && n[7] == f.event_index
        && n[8] == f.text);
}

/// Whether a record can be a document goes by the bytes of its texts alone: every record
/// whose texts have up to four billion of them together can.
pub proof fn law_records_up_to_four_billion_bytes_fit(ev: IndexableEvent)
    requires
        text::byte_len(ev.session_id@) + text::byte_len(ev.project@) + text::byte_len(
            ev.event_role@,
        ) + text::byte_len(ev.file_path@) + text::byte_len(ev.text@) + (match ev.cwd {
            Some(s) => text::byte_len(s@),
            None => 0,
        }) + (match ev.git_branch {
            Some(s) => text::byte_len(s@),
            None => 0,
        }) <= 4_000_000_000,
    ensures
        event_fits(ev),
{
}

/// A number with a unit goes back that many seconds, minutes, hours, days or weeks from
/// the given time, if the calendar goes so far; with any other unit it is refused.
pub proof fn law_units_of_time(number: Seq<char>, n: int, unit: char, now: Timestamp)
    requires
        signed_number(number) == Some(n),
    ensures
        ({
            let seconds: int = if unit == 's' {
                n
            } else if unit == 'm' {
                n * 60
            } else if unit == 'h' {
                n * 60 * 60
            } else if unit == 'd' {
                n * 24 * 60 * 60
            } else {
                n * 7 * 24 * 60 * 60
            };
            let start = relative_start(number.push(unit), now);
            if unit == 's' || unit == 'm' || unit == 'h' || unit == 'd' || unit == 'w' {
                if -8_334_601_228_800 <= now.secs - seconds <= 8_210_266_876_799 {
                    start matches Ok(t) && t.secs == now.secs - seconds && t.nanos == now.nanos
                } else {
                    start == Err::<Timestamp, SinceError>(SinceError::OutOfRange)
                }
            } else {
                start == Err::<Timestamp, SinceError>(SinceError::Unit)
            }
        }),
{
    let s = number.push(unit);
    assert(s.drop_last() =~= number);
    assert(s.last() == unit);
    text::lemma_byte_len_take(s, 0, s.len() as int);
    assert(s.take(s.len() as int) =~= s);
    assert(number.len() > 0);
    if let Some(k) = unit_seconds(unit) {
        let seconds: int = if unit == 's' {
            n
        } else if unit == 'm' {
            n * 60
        } else if unit == 'h' {
            n * 60 * 60
        } else if unit == 'd' {
            n * 24 * 60 * 60
        } else {
            n * 7 * 24 * 60 * 60
        };
        assert(n * k == seconds) by (nonlinear_arith)
            requires
                unit == 's' ==> k == 1 && seconds == n,
                unit == 'm' ==> k == 60 && seconds == n * 60,
                unit == 'h' ==> k == 3_600 && seconds == n * 60 * 60,
                unit == 'd' ==> k == 86_400 && seconds == n * 24 * 60 * 60,
                unit == 'w' ==> k == 604_800 && seconds == n * 7 * 24 * 60 * 60,
                unit == 's' || unit == 'm' || unit == 'h' || unit == 'd' || unit == 'w',
        ;
        assert(clock::in_calendar(now.secs - seconds) <==> -8_334_601_228_800 <= now.secs - seconds
            <= 8_210_266_876_799);
    }
}

/// A text that is neither a date nor a number with one more character is refused.
pub proof fn law_other_windows_are_refused(s: Seq<char>, now: Timestamp)
    requires
        clock::rfc3339(s) is None,
        clock::rfc3339(s + "T00:00:00Z"@) is None,
        s.len() < 2 || signed_number(s.drop_last()) is None,
    ensures
        since_start(s, now) == Err::<Timestamp, SinceError>(SinceError::Value),
{
    if s.len() == 1 {
        assert(s.drop_last() =~= seq![]);
    } else if s.len() == 0 {
        assert(text::byte_len(s) == 0);
    }
}

/// A window by a date starts at that date: at the instant where the text is a date and
/// time, or else at midnight in UTC of the day that it is. The time of the search has no
/// part in it.
pub proof fn law_dates_start_at_themselves(s: Seq<char>, now: Timestamp, t: Timestamp)
    ensures
        clock::rfc3339(s) == Some(t) ==> since_start(s, now) == Ok::<Timestamp, SinceError>(t),
        clock::rfc3339(s) is None && clock::rfc3339(s + "T00:00:00Z"@) == Some(t) ==> since_start(
            s,
            now,
        ) == Ok::<Timestamp, SinceError>(t),
        clock::rfc3339(s) is None && clock::rfc3339(s + "T00:00:00Z"@) is None ==> since_start(
            s,
            now,
        ) == relative_start(s, now),
{
}

/// Digits are read in decimal: one more digit makes ten times the number and the digit
/// more. A sign in front changes nothing but the sign, and nothing else is read.
pub proof fn law_numbers_are_decimal(s: Seq<char>, d: char)
    requires
        s.len() > 0,
        all_digits(s),
        '0' <= d && d <= '9',
        10 * digits_value(s) + 9 <= i64::MAX,
    ensures
        signed_number(seq![d]) == Some(d as int - '0' as int),
        signed_number(s) matches Some(n) && signed_number(s.push(d)) == Some(
            10 * n + (d as int - '0' as int),
        ) && signed_number(seq!['+'] + s) == Some(n) && signed_number(seq!['-'] + s) == Some(-n),
{
    let more = s.push(d);
    assert(more.drop_last() =~= s);
    lemma_digits_not_negative(s);
    assert(text::is_digit(s[0]));
    assert forall|i: int| 0 <= i < more.len() implies text::is_digit(#[trigger] more[i]) by {
        if i < s.len() {
            assert(text::is_digit(s[i]));
        }
    }
    assert((seq!['+'] + s).skip(1) =~= s);
    assert((seq!['-'] + s).skip(1) =~= s);
    let one = seq![d];
    assert(one.drop_last() =~= seq![]);
    reveal_with_fuel(digits_value, 2);
    assert(all_digits(one));
}

/// A number is digits with or without a sign in front: with anything else in it, or with
/// no digit, it is none.
pub proof fn law_numbers_have_digits_only(s: Seq<char>, i: int)
    ensures
        signed_number(seq![]) is None,
        signed_number(seq!['+']) is None,
        signed_number(seq!['-']) is None,
        0 < i < s.len() && !('0' <= s[i] && s[i] <= '9') ==> signed_number(s) is None,
        s.len() > 0 && !('0' <= s[0] && s[0] <= '9') && s[0] != '+' && s[0] != '-'
            ==> signed_number(s) is None,
{
    assert(seq!['+'].skip(1) =~= seq![]);
    assert(seq!['-'].skip(1) =~= seq![]);
    if 0 < i < s.len() && signed_number(s) is Some {
        if s[0] == '+' || s[0] == '-' {
            assert(s.skip(1)[i - 1] == s[i]);
            assert(text::is_digit(s.skip(1)[i - 1]));
        } else {
            assert(text::is_digit(s[i]));
        }
    }
    if s.len() > 0 && signed_number(s) is Some && s[0] != '+' && s[0] != '-' {
        assert(text::is_digit(s[0]));
    }
}

/// A search is made for exactly what was asked, with the limit that was asked for, kept in
/// its bounds; and it fails only for a query that nests too deep, or for what is wrong with
/// the query or with its time window.
pub proof fn law_search_is_as_asked(
    r: Result<Search, SearchError>,
    args: SearchArgs,
    role: Option<Seq<char>>,
)
    requires
        searches(r, args, role),
    ensures
        r matches Ok(s) ==> store::query_clauses(s.query) == search_clauses(
            args,
            role,
            event_fields(),
        ) && s.limit == (match args.limit {
            None => 10int,
            Some(n) => if n == 0 {
                1
            } else if n > 100 {
                100
            } else {
                n as int
            },
        }),
        !wording::too_deep(args.query@) && store::query_error(event_schema(), 8, args.query@) is None
            && args.since is None ==> r is Ok,
        wording::too_deep(args.query@) <==> r == Err::<Search, SearchError>(SearchError::TooDeep),
        args.since is None ==> !(r matches Err(SearchError::DateRange(_))),
        wording::is_plain(args.query@) ==> !(r matches Err(SearchError::Query(_))),
{
}

/// What a result says is what is in it, part by part.
pub proof fn law_hit_is_seen_as_it_is(h: SearchHit)
    ensures
        h@.session_id == h.session_id@ && h@.project == h.project@ && h@.event_role == h.event_role@,
        h@.timestamp is Some <==> h.timestamp is Some,
        h.timestamp matches Some(t) ==> h@.timestamp == Some(t@),
        h@.file_path == h.file_path@ && h@.event_index == h.event_index,
        h@.snippet == h.snippet@ && h@.score_bits == h.score_bits,
{
}

} // verus!
