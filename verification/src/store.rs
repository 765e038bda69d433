//! The parts of `tantivy` that only compute: schemas, documents, terms and
//! queries. An index itself is on disk and is not touched here.

use vstd::prelude::*;
use vstd::utf8::is_ascii_chars;
use tantivy::schema::document::Value;
use crate::clock;
use crate::text;
use crate::wording;

verus! {

/// How a field of an index is kept and searched.
#[derive(Clone, Copy, Debug, PartialEq, Eq, Structural)]
pub enum FieldKind {
    /// Stored, and found by its whole text only.
    Keyword,
    /// Stored, and not searched.
    Stored,
    /// Stored, and found by its words.
    FullText,
    /// A stored date that is searched by its value.
    Date,
    /// A stored number that is searched by its value.
    Number,
}

/// A value in a document.
pub enum DocValue {
    Text(Seq<char>),
    Number(u64),
    /// A date as nanoseconds since the start of 1970.
    Date(i64),
    Other,
}

/// What a query asks of a document: to match a query written by a user, whose
/// words are looked for in the given field, to hold a word, in lowercase, among those
/// of a field, to hold a text in a field, or to hold a date in a field that, in whole
/// seconds since the start of 1970, is at least the given number.
pub enum Clause {
    Parsed(u32, Seq<char>),
    Word(u32, Seq<char>),
    Term(u32, Seq<char>),
    From(u32, int),
}

/// What a query written by a user asks of a document: where it is made of plain words,
/// that the document hold each of them in the field that is searched by default, and
/// where it is a range of dates without an end, that the document have such a date.
pub open spec fn asked(
    fields: Seq<(Seq<char>, FieldKind)>,
    default_field: u32,
    text: Seq<char>,
) -> Seq<Clause> {
    if wording::is_plain(text) {
        text::words(text).map_values(|w: Seq<char>| Clause::Word(default_field, text::lowercase(w)))
    } else {
        match range_from(fields, text) {
            Some((field, start)) => seq![Clause::From(field, start)],
            None => seq![Clause::Parsed(default_field, text)],
        }
    }
}

/// The number of the field with the given name.
pub open spec fn field_named(fields: Seq<(Seq<char>, FieldKind)>, name: Seq<char>) -> Option<int>
    decreases fields.len(),
{
    if fields.len() == 0 {
        None
    } else if fields.last().0 == name {
        Some(fields.len() - 1)
    } else {
        field_named(fields.drop_last(), name)
    }
}

/// Whether a text is lowercase letters and underscores.
pub open spec fn is_field_word(s: Seq<char>) -> bool {
    s.len() > 0 && forall|i: int|
        0 <= i < s.len() ==> 'a' <= #[trigger] s[i] && s[i] <= 'z' || s[i] == '_'
}

/// The query for documents with a date in the field with the given name that is not
/// before the one in the given text.
pub open spec fn range_text(name: Seq<char>, start: Seq<char>) -> Seq<char> {
    name + ":["@ + start + " TO *]"@
}

/// The field and the first second of a range of dates without an end, where a query is
/// one for a field of dates, with a start that the index has, in UTC to the second. A
/// leap second is before the next.
pub open spec fn range_from(fields: Seq<(Seq<char>, FieldKind)>, query: Seq<char>) -> Option<
    (u32, int),
> {
    let size = query.len() - 28;
    let name = query.take(size);
    let start = query.subrange(size + 2, size + 22);
    match (field_named(fields, name), clock::rfc3339(start)) {
        (Some(field), Some(t)) => if size > 0 && query == range_text(name, start) && is_field_word(
            name,
        ) && clock::is_utc_text(start) && fields[field].1 == FieldKind::Date && field <= u32::MAX
            && -9_223_372_036 <= t.secs <= 9_223_372_036 {
            Some(
                (
                    field as u32,
                    if t.nanos < 1_000_000_000 {
                        t.secs as int
                    } else {
                        t.secs + 1
                    },
                ),
            )
        } else {
            None
        },
        _ => None,
    }
}

/// Whether the start of a range of dates is a leap second.
pub open spec fn starts_in_leap(query: Seq<char>) -> bool {
    clock::rfc3339(query.subrange(query.len() - 26, query.len() - 6)) matches Some(t) && t.nanos
        >= 1_000_000_000
}

/// What a range asks for is told by the name of its field and its start.
pub proof fn lemma_range_from(
    fields: Seq<(Seq<char>, FieldKind)>,
    at: int,
    start: Seq<char>,
    t: clock::Timestamp,
)
    requires
        0 <= at < fields.len() <= u32::MAX,
        fields[at].1 == FieldKind::Date,
        is_field_word(fields[at].0),
        forall|k: int| at < k < fields.len() ==> (#[trigger] fields[k]).0 != fields[at].0,
        clock::is_utc_text(start),
        clock::rfc3339(start) == Some(t),
        -9_223_372_036 <= t.secs <= 9_223_372_036,
    ensures
        range_from(fields, range_text(fields[at].0, start)) == Some(
            (
                at as u32,
                if t.nanos < 1_000_000_000 {
                    t.secs as int
                } else {
                    t.secs + 1
                },
            ),
        ),
        !wording::is_plain(range_text(fields[at].0, start)),
        starts_in_leap(range_text(fields[at].0, start)) <==> t.nanos >= 1_000_000_000,
{
    reveal_strlit(":[");
    reveal_strlit(" TO *]");
    let name = fields[at].0;
    let query = range_text(name, start);
    assert(query.len() - 28 == name.len());
    assert(query.take(name.len() as int) =~= name);
    assert(query.subrange(name.len() as int + 2, name.len() as int + 22) =~= start);
    lemma_field_named(fields, at);
    assert(query[name.len() as int] == ":["@[0]);
    assert(!wording::is_plain_char(query[name.len() as int]));
}

/// A range with a start that is no date of four digits of year, or that is read as none
/// which the index has, is not taken for a range of dates.
pub proof fn lemma_no_range_from(
    fields: Seq<(Seq<char>, FieldKind)>,
    name: Seq<char>,
    start: Seq<char>,
)
    requires
        is_field_word(name),
        !clock::is_utc_text(start) || !(clock::rfc3339(start) matches Some(t) && -9_223_372_036
            <= t.secs <= 9_223_372_036),
    ensures
        range_from(fields, range_text(name, start)) is None,
{
    reveal_strlit(":[");
    reveal_strlit(" TO *]");
    let query = range_text(name, start);
    let size = query.len() - 28;
    let other = query.take(size);
    let n = name.len() as int;
    assert(query[n] == ":["@[0]);
    if range_from(fields, query) is Some {
        let inner = query.subrange(size + 2, size + 22);
        assert(range_text(other, inner)[size] == ":["@[0]);
        if size > n {
            assert(other[n] == ':');
        } else if size < n {
            assert(query[size] == name[size]);
        } else {
            assert(inner =~= start);
        }
    }
}

/// The last field with a name is the one with that name.
proof fn lemma_field_named(fields: Seq<(Seq<char>, FieldKind)>, at: int)
    requires
        0 <= at < fields.len(),
        forall|k: int| at < k < fields.len() ==> (#[trigger] fields[k]).0 != fields[at].0,
    ensures
        field_named(fields, fields[at].0) == Some(at),
    decreases fields.len(),
{
    if at < fields.len() - 1 {
        let rest = fields.drop_last();
        assert(fields.last() == fields[fields.len() - 1]);
        assert forall|k: int| at < k < rest.len() implies (#[trigger] rest[k]).0 != rest[at].0 by {
            assert(rest[k] == fields[k]);
        }
        lemma_field_named(rest, at);
    }
}

/// A query for an index without dates is no range of them.
pub proof fn lemma_no_range(fields: Seq<(Seq<char>, FieldKind)>, query: Seq<char>)
    requires
        forall|k: int| 0 <= k < fields.len() ==> (#[trigger] fields[k]).1 != FieldKind::Date,
    ensures
        range_from(fields, query) is None,
{
    lemma_named_is_there(fields, query.take(query.len() - 28));
}

proof fn lemma_named_is_there(fields: Seq<(Seq<char>, FieldKind)>, name: Seq<char>)
    ensures
        field_named(fields, name) matches Some(k) ==> 0 <= k < fields.len() && fields[k].0 == name,
    decreases fields.len(),
{
    if fields.len() > 0 {
        lemma_named_is_there(fields.drop_last(), name);
    }
}

/// The fields of a schema under construction, as `tantivy` numbers them.
pub uninterp spec fn builder_fields(b: tantivy::schema::SchemaBuilder) -> Seq<
    (Seq<char>, FieldKind),
>;

/// The fields of a schema, as `tantivy` numbers them.
pub uninterp spec fn schema_fields(s: tantivy::schema::Schema) -> Seq<(Seq<char>, FieldKind)>;

/// The values in a document, each with the number of its field, in the order in
/// which they were added.
pub uninterp spec fn doc_values(d: tantivy::TantivyDocument) -> Seq<(u32, DocValue)>;

/// The field and the text of a term.
pub uninterp spec fn term_parts(t: tantivy::Term) -> (u32, Seq<char>);

/// What a query asks of a document, all of it.
pub uninterp spec fn query_clauses(q: tantivy::query::BooleanQuery) -> Seq<Clause>;

/// What `tantivy::query::QueryParser` says of a text that it cannot read as a
/// query for an index with the given fields and default field, where words that
/// nothing joins are all asked for.
pub uninterp spec fn query_error(
    fields: Seq<(Seq<char>, FieldKind)>,
    default_field: u32,
    text: Seq<char>,
) -> Option<Seq<char>>;

/// `tantivy::schema::SchemaBuilder`.
#[verifier::external_type_specification]
#[verifier::external_body]
pub struct ExSchemaBuilder(tantivy::schema::SchemaBuilder);

/// `tantivy::schema::Schema`.
#[verifier::external_type_specification]
#[verifier::external_body]
pub struct ExSchema(tantivy::schema::Schema);

/// `tantivy::TantivyDocument`.
#[verifier::external_type_specification]
#[verifier::external_body]
pub struct ExDocument(tantivy::TantivyDocument);

/// `tantivy::Term`.
#[verifier::external_type_specification]
#[verifier::external_body]
pub struct ExTerm(tantivy::Term);

/// `tantivy::query::BooleanQuery`.
#[verifier::external_type_specification]
#[verifier::external_body]
pub struct ExBooleanQuery(tantivy::query::BooleanQuery);

/// Whether a list of fields has one with the given name.
pub open spec fn has_field(fields: Seq<(Seq<char>, FieldKind)>, name: Seq<char>) -> bool {
    exists|i: int| 0 <= i < fields.len() && (#[trigger] fields[i]).0 == name
}

/// Whether a field can have the given name: any that is not empty and does not start
/// with a dash.
pub open spec fn valid_name(name: Seq<char>) -> bool {
    name.len() > 0 && name[0] != '-'
}

/// The first value of a field in a document.
pub open spec fn first_value(values: Seq<(u32, DocValue)>, field: u32) -> Option<DocValue>
    decreases values.len(),
{
    if values.len() == 0 {
        None
    } else if values[0].0 == field {
        Some(values[0].1)
    } else {
        first_value(values.drop_first(), field)
    }
}

/// Whether a document holds nothing but texts, numbers and dates.
pub open spec fn is_simple(values: Seq<(u32, DocValue)>) -> bool {
    forall|i: int| 0 <= i < values.len() ==> !((#[trigger] values[i]).1 is Other)
}

/// The most bytes that a text, a number or a date takes in a document: a text has
/// its length in front.
pub open spec fn value_size(v: DocValue) -> nat {
    match v {
        DocValue::Text(s) => text::byte_len(s) + 5,
        _ => 8,
    }
}

/// The most bytes that the texts, numbers and dates of a document take.
pub open spec fn doc_size(values: Seq<(u32, DocValue)>) -> nat
    decreases values.len(),
{
    if values.len() == 0 {
        0
    } else {
        doc_size(values.drop_last()) + value_size(values.last().1)
    }
}

/// Whether a document of texts, numbers and dates has room for one more value: it
/// finds its values by offsets of 32 bits.
pub open spec fn has_room(d: tantivy::TantivyDocument, v: DocValue) -> bool {
    is_simple(doc_values(d)) && doc_size(doc_values(d)) + value_size(v) <= u32::MAX
}

/// Nanoseconds as whole seconds, the rest cut off.
pub open spec fn whole_seconds(nanos: int) -> int {
    if nanos >= 0 {
        nanos / 1_000_000_000
    } else {
        -((-nanos) / 1_000_000_000)
    }
}

/// The first value of a field, where it is a text.
pub open spec fn text_value(values: Seq<(u32, DocValue)>, field: u32) -> Option<Seq<char>> {
    match first_value(values, field) {
        Some(DocValue::Text(s)) => Some(s),
        _ => None,
    }
}

/// The first value of a field, where it is a number.
pub open spec fn number_value(values: Seq<(u32, DocValue)>, field: u32) -> Option<u64> {
    match first_value(values, field) {
        Some(DocValue::Number(n)) => Some(n),
        _ => None,
    }
}

/// The whole seconds of the first value of a field, where it is a date.
pub open spec fn date_value(values: Seq<(u32, DocValue)>, field: u32) -> Option<int> {
    match first_value(values, field) {
        Some(DocValue::Date(n)) => Some(whole_seconds(n as int)),
        _ => None,
    }
}

/// Whether a part of a text is a run of letters and numbers that goes no further on
/// either side.
pub open spec fn is_run(s: Seq<char>, a: int, b: int) -> bool {
    &&& 0 <= a < b <= s.len()
    &&& forall|i: int| a <= i < b ==> text::is_letter_or_number(#[trigger] s[i])
    &&& a == 0 || !text::is_letter_or_number(s[a - 1])
    &&& b == s.len() || !text::is_letter_or_number(s[b])
}

/// How many bytes a word has at most that is indexed, and one more.
pub const WORD_LIMIT: usize = 40;

/// Whether a text that is indexed by its words holds a word of ASCII, in lowercase. Its
/// words are its runs of letters and numbers, without those that are too long, and in
/// lowercase. (Outside ASCII they are lowered character by character, of which nothing
/// is said here.)
pub open spec fn holds_word(s: Seq<char>, w: Seq<char>) -> bool {
    is_ascii_chars(w) && exists|a: int, b: int| #[trigger]
        is_run(s, a, b) && text::byte_len(s.subrange(a, b)) < WORD_LIMIT && text::lowercase(
            s.subrange(a, b),
        ) == w
}

/// Whether a document with the given values meets what is asked of it: to hold a word
/// among those of a field, to have a text in a field, or to have a date in a field that
/// is not before the given second, whatever comes after it. Nothing is said here of a
/// query that is neither made of plain words nor a range of dates without an end.
pub open spec fn meets(values: Seq<(u32, DocValue)>, c: Clause) -> bool {
    match c {
        Clause::Word(field, w) => text_value(values, field) matches Some(t) && holds_word(t, w),
        Clause::Term(field, t) => text_value(values, field) == Some(t),
        Clause::From(field, start) => date_value(values, field) matches Some(n) && n >= start,
        Clause::Parsed(_, _) => true,
    }
}

/// Whether a document with the given values meets all that is asked of it.
pub open spec fn meets_all(values: Seq<(u32, DocValue)>, clauses: Seq<Clause>) -> bool {
    forall|i: int| 0 <= i < clauses.len() ==> meets(values, #[trigger] clauses[i])
}

/// Whether a text holds every word of a query of plain words, whatever the case of
/// either.
pub open spec fn holds_words(s: Seq<char>, query: Seq<char>) -> bool {
    forall|i: int|
        0 <= i < text::words(query).len() ==> holds_word(
            s,
            text::lowercase(#[trigger] text::words(query)[i]),
        )
}

/// A document meets a query of plain words where its field holds every one of them, and
/// a range of dates where its date is in it.
pub proof fn lemma_meets_words(
    values: Seq<(u32, DocValue)>,
    fields: Seq<(Seq<char>, FieldKind)>,
    field: u32,
    query: Seq<char>,
    s: Seq<char>,
)
    requires
        text_value(values, field) == Some(s),
    ensures
        meets_all(values, asked(fields, field, query)) <==> if wording::is_plain(query) {
            holds_words(s, query)
        } else {
            range_from(fields, query) matches Some(range) ==> (date_value(
                values,
                range.0,
            ) matches Some(n) && n >= range.1)
        },
{
    let list = asked(fields, field, query);
    if wording::is_plain(query) {
        let words = text::words(query);
        if meets_all(values, list) {
            assert forall|i: int| 0 <= i < words.len() implies holds_word(
                s,
                text::lowercase(#[trigger] words[i]),
            ) by {
                assert(list[i] == Clause::Word(field, text::lowercase(words[i])));
                assert(meets(values, list[i]));
            }
        }
        if holds_words(s, query) {
            assert forall|i: int| 0 <= i < list.len() implies meets(values, #[trigger] list[i]) by {
                assert(list[i] == Clause::Word(field, text::lowercase(words[i])));
            }
        }
    } else if let Some(range) = range_from(fields, query) {
        lemma_meets_from(values, range.0, range.1);
    } else {
        assert(list.len() == 1 && list[0] == Clause::Parsed(field, query));
    }
}

/// A document meets a range of dates without an end where its date is not before the
/// start.
pub proof fn lemma_meets_from(values: Seq<(u32, DocValue)>, field: u32, start: int)
    ensures
        meets_all(values, seq![Clause::From(field, start)]) <==> (date_value(
            values,
            field,
        ) matches Some(n) && n >= start),
{
    let one = seq![Clause::From(field, start)];
    assert(one[0] == Clause::From(field, start));
    if meets_all(values, one) {
        assert(meets(values, one[0]));
    }
}

/// A document meets two lists of what is asked where it meets each.
pub proof fn lemma_meets_concat(values: Seq<(u32, DocValue)>, a: Seq<Clause>, b: Seq<Clause>)
    ensures
        meets_all(values, a + b) <==> meets_all(values, a) && meets_all(values, b),
{
    let all = a + b;
    if meets_all(values, all) {
        assert forall|i: int| 0 <= i < a.len() implies meets(values, #[trigger] a[i]) by {
            assert(all[i] == a[i]);
        }
        assert forall|i: int| 0 <= i < b.len() implies meets(values, #[trigger] b[i]) by {
            assert(all[a.len() + i] == b[i]);
        }
    }
}

/// A document meets one thing that is asked where its field has the text.
pub proof fn lemma_meets_one(values: Seq<(u32, DocValue)>, field: u32, t: Seq<char>)
    ensures
        meets_all(values, seq![Clause::Term(field, t)]) <==> text_value(values, field) == Some(t),
{
    let one = seq![Clause::Term(field, t)];
    assert(one[0] == Clause::Term(field, t));
    if meets_all(values, one) {
        assert(meets(values, one[0]));
    }
}

/// `SchemaBuilder::default` has no fields.
#[verifier::external_body]
pub(crate) fn new_builder() -> (r: tantivy::schema::SchemaBuilder)
    ensures
        builder_fields(r) == Seq::<(Seq<char>, FieldKind)>::empty(),
{
    tantivy::schema::SchemaBuilder::default()
}

/// `SchemaBuilder::add_text_field` with `STRING | STORED` adds a field whose text
/// is kept and indexed whole. Fields are numbered in order.
#[verifier::external_body]
pub(crate) fn add_keyword_field(b: &mut tantivy::schema::SchemaBuilder, name: &str) -> (r: u32)
    requires
        valid_name(name@),
        !has_field(builder_fields(*old(b)), name@),
        builder_fields(*old(b)).len() < u32::MAX,
    ensures
        builder_fields(*final(b)) == builder_fields(*old(b)).push((name@, FieldKind::Keyword)),
        r == builder_fields(*old(b)).len(),
{
    b.add_text_field(name, tantivy::schema::STRING | tantivy::schema::STORED).field_id()
}

/// `SchemaBuilder::add_text_field` with `STORED` adds a field whose text is kept.
#[verifier::external_body]
pub(crate) fn add_stored_field(b: &mut tantivy::schema::SchemaBuilder, name: &str) -> (r: u32)
    requires
        valid_name(name@),
        !has_field(builder_fields(*old(b)), name@),
        builder_fields(*old(b)).len() < u32::MAX,
    ensures
        builder_fields(*final(b)) == builder_fields(*old(b)).push((name@, FieldKind::Stored)),
        r == builder_fields(*old(b)).len(),
{
    b.add_text_field(name, tantivy::schema::STORED).field_id()
}

/// `SchemaBuilder::add_text_field` with `TEXT | STORED` adds a field whose text is
/// kept and indexed by its words.
#[verifier::external_body]
pub(crate) fn add_full_text_field(b: &mut tantivy::schema::SchemaBuilder, name: &str) -> (r: u32)
    requires
        valid_name(name@),
        !has_field(builder_fields(*old(b)), name@),
        builder_fields(*old(b)).len() < u32::MAX,
    ensures
        builder_fields(*final(b)) == builder_fields(*old(b)).push((name@, FieldKind::FullText)),
        r == builder_fields(*old(b)).len(),
{
    b.add_text_field(name, tantivy::schema::TEXT | tantivy::schema::STORED).field_id()
}

/// `SchemaBuilder::add_date_field` adds a field of dates that are kept, indexed
/// and held in a column.
#[verifier::external_body]
pub(crate) fn add_date_field(b: &mut tantivy::schema::SchemaBuilder, name: &str) -> (r: u32)
    requires
        valid_name(name@),
        !has_field(builder_fields(*old(b)), name@),
        builder_fields(*old(b)).len() < u32::MAX,
    ensures
        builder_fields(*final(b)) == builder_fields(*old(b)).push((name@, FieldKind::Date)),
        r == builder_fields(*old(b)).len(),
{
    let options = tantivy::schema::DateOptions::default().set_stored().set_indexed().set_fast();
    b.add_date_field(name, options).field_id()
}

/// `SchemaBuilder::add_u64_field` adds a field of numbers that are kept, indexed
/// and held in a column.
#[verifier::external_body]
pub(crate) fn add_number_field(b: &mut tantivy::schema::SchemaBuilder, name: &str) -> (r: u32)
    requires
        valid_name(name@),
        !has_field(builder_fields(*old(b)), name@),
        builder_fields(*old(b)).len() < u32::MAX,
    ensures
        builder_fields(*final(b)) == builder_fields(*old(b)).push((name@, FieldKind::Number)),
        r == builder_fields(*old(b)).len(),
{
    let options = tantivy::schema::NumericOptions::default().set_stored().set_fast();
    b.add_u64_field(name, options | tantivy::schema::INDEXED).field_id()
}

/// `SchemaBuilder::build` gives the schema with the fields added.
#[verifier::external_body]
pub(crate) fn finish_schema(b: tantivy::schema::SchemaBuilder) -> (r: tantivy::schema::Schema)
    ensures
        schema_fields(r) == builder_fields(b),
{
    b.build()
}

/// `TantivyDocument::default` has no values.
#[verifier::external_body]
pub(crate) fn new_document() -> (r: tantivy::TantivyDocument)
    ensures
        doc_values(r) == Seq::<(u32, DocValue)>::empty(),
{
    tantivy::TantivyDocument::default()
}

/// `TantivyDocument::add_text` adds a text at the end. Field numbers are kept in
/// 16 bits.
#[verifier::external_body]
pub(crate) fn add_text(d: &mut tantivy::TantivyDocument, field: u32, value: &str)
    requires
        field <= u16::MAX,
        has_room(*old(d), DocValue::Text(value@)),
    ensures
        doc_values(*final(d)) == doc_values(*old(d)).push((field, DocValue::Text(value@))),
{
    d.add_text(tantivy::schema::Field::from_field_id(field), value);
}

/// `TantivyDocument::add_u64` adds a number at the end.
#[verifier::external_body]
pub(crate) fn add_number(d: &mut tantivy::TantivyDocument, field: u32, value: u64)
    requires
        field <= u16::MAX,
        has_room(*old(d), DocValue::Number(value)),
    ensures
        doc_values(*final(d)) == doc_values(*old(d)).push((field, DocValue::Number(value))),
{
    d.add_u64(tantivy::schema::Field::from_field_id(field), value);
}

/// `TantivyDocument::add_date` adds a date at the end, which
/// `DateTime::from_timestamp_micros` keeps in nanoseconds.
#[verifier::external_body]
pub(crate) fn add_date(d: &mut tantivy::TantivyDocument, field: u32, micros: i64)
    requires
        field <= u16::MAX,
        i64::MIN <= micros * 1_000 <= i64::MAX,
        has_room(*old(d), DocValue::Date((micros * 1_000) as i64)),
    ensures
        doc_values(*final(d)) == doc_values(*old(d)).push(
            (field, DocValue::Date((micros * 1_000) as i64)),
        ),
{
    d.add_date(
        tantivy::schema::Field::from_field_id(field),
        tantivy::DateTime::from_timestamp_micros(micros),
    );
}

/// `TantivyDocument::get_first` and `Value::as_str`: the first value of a field,
/// where it is a text.
#[verifier::external_body]
pub(crate) fn first_text(d: &tantivy::TantivyDocument, field: u32) -> (r: Option<String>)
    ensures
        text::view_of(r) == text_value(doc_values(*d), field),
{
    let value = d.get_first(tantivy::schema::Field::from_field_id(field))?;
    value.as_str().map(|s| s.to_string())
}

/// `TantivyDocument::get_first` and `Value::as_u64`: the first value of a field,
/// where it is a number.
#[verifier::external_body]
pub(crate) fn first_u64(d: &tantivy::TantivyDocument, field: u32) -> (r: Option<u64>)
    ensures
        r == number_value(doc_values(*d), field),
{
    d.get_first(tantivy::schema::Field::from_field_id(field))?.as_u64()
}

/// `TantivyDocument::get_first`, `Value::as_datetime` and
/// `DateTime::into_timestamp_secs`: the whole seconds of the first value of a
/// field, where it is a date.
#[verifier::external_body]
pub(crate) fn first_date(d: &tantivy::TantivyDocument, field: u32) -> (r: Option<i64>)
    ensures
        match r {
            Some(n) => date_value(doc_values(*d), field) == Some(n as int),
            None => date_value(doc_values(*d), field) is None,
        },
{
    let value = d.get_first(tantivy::schema::Field::from_field_id(field))?;
    value.as_datetime().map(|t| t.into_timestamp_secs())
}

/// `Term::from_field_text` is the term for a text in a field.
#[verifier::external_body]
pub(crate) fn text_term(field: u32, value: &str) -> (r: tantivy::Term)
    ensures
        term_parts(r) == (field, value@),
{
    tantivy::Term::from_field_text(tantivy::schema::Field::from_field_id(field), value)
}

/// `QueryParser::parse_query` reads a query as a user writes it, with the
/// tokenizers that every index of `tantivy` has. Whether it can, and what it says
/// where it cannot, depends on the schema's fields, on the field that is searched
/// by default and on the text. With `QueryParser::set_conjunction_by_default` words
/// that nothing joins are all asked for. A query of plain words can always be read,
/// and asks for each of them in lowercase, as the words of the field are indexed. A
/// range of dates with a start and `*` for its end asks for the dates that are not before
/// the start, and can be read where that is no leap second; the field's dates are kept in
/// whole seconds, and a leap second, where it can be read, counts as the last nanosecond
/// before the next second. The parser calls itself for what is in parentheses or negated, and for parentheses twice
/// on each level, so that a query must not nest too deep.
#[verifier::external_body]
pub(crate) fn parsed_query(schema: &tantivy::schema::Schema, default_field: u32, query: &str) -> (r:
    Result<tantivy::query::BooleanQuery, String>)
    requires
        default_field < schema_fields(*schema).len(),
        schema_fields(*schema)[default_field as int].1 == FieldKind::FullText,
        !wording::too_deep(query@),
    ensures
        match r {
            Ok(q) => query_error(schema_fields(*schema), default_field, query@) is None
                && query_clauses(q) == asked(schema_fields(*schema), default_field, query@),
            Err(e) => query_error(schema_fields(*schema), default_field, query@) == Some(e@),
        },
        wording::is_plain(query@) ==> r is Ok,
        range_from(schema_fields(*schema), query@) is Some && !starts_in_leap(query@) ==> r is Ok,
{
    let fields = vec![tantivy::schema::Field::from_field_id(default_field)];
    let tokenizers = tantivy::tokenizer::TokenizerManager::default();
    let mut parser = tantivy::query::QueryParser::new(schema.clone(), fields, tokenizers);
    parser.set_conjunction_by_default();
    match parser.parse_query(query) {
        Ok(q) => Ok(tantivy::query::BooleanQuery::from(vec![(tantivy::query::Occur::Must, q)])),
        Err(e) => Err(e.to_string()),
    }
}

/// `TermQuery::new` asks that a document hold a term.
#[verifier::external_body]
pub(crate) fn term_query(t: tantivy::Term) -> (r: tantivy::query::BooleanQuery)
    ensures
        query_clauses(r) == seq![Clause::Term(term_parts(t).0, term_parts(t).1)],
{
    let q = tantivy::query::TermQuery::new(t, tantivy::schema::IndexRecordOption::Basic);
    let boxed: Box<dyn tantivy::query::Query> = Box::new(q);
    tantivy::query::BooleanQuery::from(vec![(tantivy::query::Occur::Must, boxed)])
}

/// `BooleanQuery::from` asks for all that its clauses ask for; here they are those
/// of one query followed by those of another.
#[verifier::external_body]
pub(crate) fn both_queries(a: &tantivy::query::BooleanQuery, b: &tantivy::query::BooleanQuery) -> (r:
    tantivy::query::BooleanQuery)
    ensures
        query_clauses(r) == query_clauses(*a) + query_clauses(*b),
{
    let clauses = a.clauses().iter().chain(b.clauses());
    tantivy::query::BooleanQuery::from(
        clauses.map(|(occur, q)| (*occur, q.box_clone())).collect::<Vec<_>>(),
    )
}

/// The first value of a field in two lists, one after the other.
pub proof fn lemma_first_value_concat(a: Seq<(u32, DocValue)>, b: Seq<(u32, DocValue)>, field: u32)
    ensures
        first_value(a + b, field) == match first_value(a, field) {
            Some(v) => Some(v),
            None => first_value(b, field),
        },
    decreases a.len(),
{
    if a.len() == 0 {
        assert(a + b =~= b);
    } else {
        assert((a + b).drop_first() =~= a.drop_first() + b);
        lemma_first_value_concat(a.drop_first(), b, field);
    }
}

/// The values of two lists take the bytes of each.
pub proof fn lemma_doc_size_concat(a: Seq<(u32, DocValue)>, b: Seq<(u32, DocValue)>)
    ensures
        doc_size(a + b) == doc_size(a) + doc_size(b),
    decreases b.len(),
{
    if b.len() == 0 {
        assert(a + b =~= a);
    } else {
        assert((a + b).drop_last() =~= a + b.drop_last());
        lemma_doc_size_concat(a, b.drop_last());
    }
}

/// A document has room for the next of the values of a list that fits.
pub proof fn lemma_has_room(d: tantivy::TantivyDocument, field: u32, v: DocValue, all: Seq<(u32, DocValue)>)
    requires
        doc_values(d).push((field, v)).is_prefix_of(all),
        is_simple(all),
        doc_size(all) <= u32::MAX,
    ensures
        has_room(d, v),
{
    let so_far = doc_values(d).push((field, v));
    let rest = all.skip(so_far.len() as int);
    assert(all =~= so_far + rest);
    lemma_doc_size_concat(so_far, rest);
    assert(so_far.drop_last() =~= doc_values(d));
    assert forall|i: int| 0 <= i < doc_values(d).len() implies !((#[trigger] doc_values(d)[i]).1
        is Other) by {
        assert(all[i] == so_far[i]);
    }
}

} // verus!
