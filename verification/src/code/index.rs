//! The index of source code: its schema, the document for a file, and what a
//! search asks of the index and makes of the documents it finds.

use vstd::prelude::*;
use crate::code::parse;
use crate::code::walk::SourceFile;
use crate::index::{clamp_limit, text_or_empty, SearchError};
use crate::index;
use crate::lists;
use crate::paths;
use crate::snippet;
use crate::store;
use crate::text;
use crate::text::{chars_of, string_of};
use crate::wording;

verus! {

/// The memory that the writer of a code index may use before it writes to disk.
pub const CODE_WRITER_HEAP_BYTES: usize = 100_000_000;

/// The numbers of the index's fields.
#[derive(Clone, Copy, Debug, PartialEq, Eq, Structural)]
pub struct CodeFields {
    pub repo: u32,
    pub branch: u32,
    pub commit_sha: u32,
    pub file_path: u32,
    pub language: u32,
    pub content: u32,
    pub size_bytes: u32,
}

impl CodeFields {
    /// The numbers in the order of the schema.
    pub open spec fn numbers(self) -> Seq<u32> {
        seq![
            self.repo,
            self.branch,
            self.commit_sha,
            self.file_path,
            self.language,
            self.content,
            self.size_bytes,
        ]
    }

    /// Whether a document can have values in these fields.
    pub open spec fn usable(self) -> bool {
        forall|i: int| 0 <= i < 7 ==> #[trigger] self.numbers()[i] <= u16::MAX
    }

    /// Whether no two of these fields are the same.
    pub open spec fn distinct(self) -> bool {
        self.numbers().no_duplicates()
    }
}

/// The fields of the index and how each is kept.
pub open spec fn code_schema() -> Seq<(Seq<char>, store::FieldKind)> {
    seq![
        ("repo"@, store::FieldKind::Keyword),
        ("branch"@, store::FieldKind::Keyword),
        ("commit_sha"@, store::FieldKind::Stored),
        ("file_path"@, store::FieldKind::Keyword),
        ("language"@, store::FieldKind::Keyword),
        ("content"@, store::FieldKind::FullText),
        ("size_bytes"@, store::FieldKind::Number),
    ]
}

/// The fields of the index, numbered in the order of the schema.
pub open spec fn code_fields() -> CodeFields {
    CodeFields {
        repo: 0,
        branch: 1,
        commit_sha: 2,
        file_path: 3,
        language: 4,
        content: 5,
        size_bytes: 6,
    }
}

/// The schema of the index, and the numbers of its fields.
pub fn build_code_schema() -> (r: (tantivy::schema::Schema, CodeFields))
    ensures
        store::schema_fields(r.0) == code_schema(),
        r.1 == code_fields(),
        r.1.usable(),
        r.1.distinct(),
{
    proof {
        reveal_strlit("repo");
        reveal_strlit("branch");
        reveal_strlit("commit_sha");
        reveal_strlit("file_path");
        reveal_strlit("language");
        reveal_strlit("content");
        reveal_strlit("size_bytes");
        assert("repo"@.len() == 4 && "repo"@[0] == 'r');
        assert("branch"@.len() == 6 && "branch"@[0] == 'b');
        assert("commit_sha"@.len() == 10 && "commit_sha"@[0] == 'c');
        assert("file_path"@.len() == 9 && "file_path"@[0] == 'f');
        assert("language"@.len() == 8 && "language"@[0] == 'l');
        assert("content"@.len() == 7 && "content"@[0] == 'c');
        assert("size_bytes"@.len() == 10 && "size_bytes"@[0] == 's');
    }
    let mut sb = store::new_builder();
    let repo: u32 = store::add_keyword_field(&mut sb, "repo");
    let branch: u32 = store::add_keyword_field(&mut sb, "branch");
    let commit_sha: u32 = store::add_stored_field(&mut sb, "commit_sha");
    let file_path: u32 = store::add_keyword_field(&mut sb, "file_path");
    let language: u32 = store::add_keyword_field(&mut sb, "language");
    let content: u32 = store::add_full_text_field(&mut sb, "content");
    let size_bytes: u32 = store::add_number_field(&mut sb, "size_bytes");
    let schema = store::finish_schema(sb);
    assert(store::schema_fields(schema) =~= code_schema());
    (
        schema,
        CodeFields { repo, branch, commit_sha, file_path, language, content, size_bytes },
    )
}

/// What stands for a character of a label in the name of a directory: a dash for a
/// slash, and a percent sign in front of what would then be ambiguous.
pub open spec fn escape(c: char) -> Seq<char> {
    if c == '/' {
        seq!['-']
    } else if c == '-' {
        seq!['%', '-']
    } else if c == '\\' {
        seq!['%', 'b']
    } else if c == '%' {
        seq!['%', '%']
    } else {
        seq![c]
    }
}

/// A label with each of its characters escaped.
pub open spec fn escaped(label: Seq<char>) -> Seq<char>
    decreases label.len(),
{
    if label.len() == 0 {
        seq![]
    } else {
        escape(label[0]) + escaped(label.drop_first())
    }
}

/// A repository's label as the name of a directory. The labels that would name no
/// directory, the directory itself or the one above have names of their own.
pub open spec fn safe_label(label: Seq<char>) -> Seq<char> {
    if label.len() == 0 {
        seq!['%', '0']
    } else if label == seq!['.'] || label == seq!['.', '.'] {
        seq!['%'] + label
    } else {
        escaped(label)
    }
}

/// The text that was escaped, if there is one.
pub open spec fn unescaped(name: Seq<char>) -> Option<Seq<char>>
    decreases name.len(),
{
    if name.len() == 0 {
        Some(seq![])
    } else if name[0] != '%' {
        match unescaped(name.drop_first()) {
            Some(rest) => Some(
                seq![
                    if name[0] == '-' {
                        '/'
                    } else {
                        name[0]
                    },
                ] + rest,
            ),
            None => None,
        }
    } else if name.len() < 2 || !(name[1] == '-' || name[1] == 'b' || name[1] == '%') {
        None
    } else {
        match unescaped(name.skip(2)) {
            Some(rest) => Some(
                seq![
                    if name[1] == 'b' {
                        '\\'
                    } else {
                        name[1]
                    },
                ] + rest,
            ),
            None => None,
        }
    }
}

/// The label of the repository whose index is in the directory with the given name.
/// A name that no label has stands for itself.
pub open spec fn dir_label(name: Seq<char>) -> Seq<char> {
    if name == seq!['%', '0'] {
        seq![]
    } else if name == seq!['%', '.'] || name == seq!['%', '.', '.'] {
        name.drop_first()
    } else {
        match unescaped(name) {
            Some(label) => label,
            None => name,
        }
    }
}

/// What was escaped reads back.
proof fn lemma_unescaped(label: Seq<char>)
    ensures
        unescaped(escaped(label)) == Some(label),
        label.len() > 0 ==> escaped(label).len() > 0,
        label.len() > 0 && escaped(label)[0] == '%' ==> escaped(label).len() >= 2 && (escaped(
            label,
        )[1] == '-' || escaped(label)[1] == 'b' || escaped(label)[1] == '%'),
    decreases label.len(),
{
    if label.len() > 0 {
        let c = label[0];
        let rest = escaped(label.drop_first());
        let name = escaped(label);
        lemma_unescaped(label.drop_first());
        assert(name == escape(c) + rest);
        if escape(c).len() == 1 {
            assert(name.drop_first() =~= rest);
        } else {
            assert(name.skip(2) =~= rest);
        }
        assert(label =~= seq![c] + label.drop_first());
    } else {
        assert(label =~= seq![]);
    }
}

/// The name of a directory tells the label of the repository whose index is in it.
pub proof fn law_label_reads_back(label: Seq<char>)
    ensures
        dir_label(safe_label(label)) == label,
{
    lemma_unescaped(label);
    let name = safe_label(label);
    if label.len() == 0 {
        assert(label =~= seq![]);
    } else if label == seq!['.'] || label == seq!['.', '.'] {
        assert(name.drop_first() =~= label);
        if label == seq!['.'] {
            assert(name =~= seq!['%', '.']);
        } else {
            assert(name =~= seq!['%', '.', '.']);
        }
    } else {
        assert(seq!['%', '0'][1] == '0');
        assert(seq!['%', '.'][1] == '.' && seq!['%', '.', '.'][1] == '.');
    }
}

/// No character of an escaped label separates names.
proof fn lemma_escaped_is_one_name(label: Seq<char>)
    ensures
        !escaped(label).contains('/'),
        !escaped(label).contains('\\'),
    decreases label.len(),
{
    if label.len() > 0 {
        lemma_escaped_is_one_name(label.drop_first());
        let front = escape(label[0]);
        let rest = escaped(label.drop_first());
        assert forall|i: int| 0 <= i < escaped(label).len() implies escaped(label)[i] != '/'
            && escaped(label)[i] != '\\' by {
            if i >= front.len() {
                assert(escaped(label)[i] == rest[i - front.len()]);
                assert(rest.contains(rest[i - front.len()]));
            }
        }
    }
}

/// Where the index of a repository is under a home directory.
pub open spec fn code_index_dir(home: Seq<char>, label: Seq<char>) -> Seq<char> {
    paths::join_path(
        paths::join_path(paths::join_path(home, ".sonar"@), "code"@),
        safe_label(label),
    )
}

/// A repository's label as the name of a directory.
pub fn label_as_name(label: &str) -> (r: String)
    ensures
        r@ == safe_label(label@),
{
    let v = chars_of(label);
    let mut out = String::new();
    if v.len() == 0 {
        out.push('%');
        out.push('0');
        assert(out@ =~= safe_label(label@));
        return out;
    }
    if v[0] == '.' && (v.len() == 1 || (v.len() == 2 && v[1] == '.')) {
        proof {
            if v@.len() == 1 {
                assert(label@ =~= seq!['.']);
            } else {
                assert(label@ =~= seq!['.', '.']);
            }
        }
        out.push('%');
        out.append(label);
        assert(out@ =~= safe_label(label@));
        return out;
    }
    proof {
        assert(seq!['.'][0] == '.' && seq!['.', '.'][0] == '.' && seq!['.', '.'][1] == '.');
        assert(safe_label(label@) == escaped(label@));
        assert(v@.skip(0) =~= label@);
        assert(out@ + escaped(label@) =~= escaped(label@));
    }
    let mut i: usize = 0;
    while i < v.len()
        invariant
            i <= v.len(),
            v@ == label@,
            out@ + escaped(v@.skip(i as int)) == escaped(label@),
        decreases v.len() - i,
    {
        let c: char = v[i];
        let ghost before = out@;
        proof {
            assert(v@.skip(i as int)[0] == c);
            assert(v@.skip(i as int).drop_first() =~= v@.skip(i + 1));
        }
        if c == '/' {
            out.push('-');
        } else if c == '-' {
            out.push('%');
            out.push('-');
        } else if c == '\\' {
            out.push('%');
            out.push('b');
        } else if c == '%' {
            out.push('%');
            out.push('%');
        } else {
            out.push(c);
        }
        proof {
            assert(out@ =~= before + escape(c));
            assert(before + (escape(c) + escaped(v@.skip(i + 1))) =~= out@ + escaped(
                v@.skip(i + 1),
            ));
        }
        i += 1;
    }
    assert(out@ + escaped(v@.skip(i as int)) =~= out@);
    out
}

/// The label of the repository whose index is in the directory with the given name.
pub fn label_of_name(name: &str) -> (r: String)
    ensures
        r@ == dir_label(name@),
{
    let v = chars_of(name);
    let n: usize = v.len();
    if n == 2 && v[0] == '%' && v[1] == '0' {
        assert(name@ =~= seq!['%', '0']);
        let none = String::new();
        assert(none@ =~= seq![]);
        return none;
    }
    if v.len() >= 2 && v[0] == '%' && v[1] == '.' && (n == 2 || (n == 3 && v[2] == '.')) {
        proof {
            if n == 2 {
                assert(name@ =~= seq!['%', '.']);
            } else {
                assert(name@ =~= seq!['%', '.', '.']);
            }
            assert(v@.subrange(1, n as int) =~= name@.drop_first());
        }
        return string_of(&v, 1, n);
    }
    proof {
        let (a, b, c) = (seq!['%', '0'], seq!['%', '.'], seq!['%', '.', '.']);
        assert(a[0] == '%' && a[1] == '0' && b[0] == '%' && b[1] == '.' && c[0] == '%' && c[1]
            == '.' && c[2] == '.');
        assert(name@ != a && name@ != b && name@ != c);
        assert(v@.skip(0) =~= name@);
    }
    let mut out = String::new();
    let mut i: usize = 0;
    proof {
        if let Some(t) = unescaped(name@) {
            assert(out@ + t =~= t);
        }
    }
    while i < n
        invariant
            i <= n,
            n == v@.len(),
            v@ == name@,
            match unescaped(v@.skip(i as int)) {
                Some(t) => unescaped(name@) == Some(out@ + t),
                None => unescaped(name@) is None,
            },
            dir_label(name@) == match unescaped(name@) {
                Some(label) => label,
                None => name@,
            },
        decreases n - i,
    {
        let ghost before = out@;
        let ghost rest = v@.skip(i as int);
        assert(rest[0] == v@[i as int]);
        if v[i] != '%' {
            assert(rest.drop_first() =~= v@.skip(i + 1));
            if v[i] == '-' {
                out.push('/');
            } else {
                out.push(v[i]);
            }
            proof {
                if let Some(t) = unescaped(v@.skip(i + 1)) {
                    assert(before + (seq![out@.last()] + t) =~= out@ + t);
                }
            }
            i += 1;
        } else {
            if i + 1 >= n {
                return name.to_string();
            }
            let d: char = v[i + 1];
            assert(rest[1] == d);
            if !(d == '-' || d == 'b' || d == '%') {
                return name.to_string();
            }
            assert(rest.skip(2) =~= v@.skip(i + 2));
            if d == 'b' {
                out.push('\\');
            } else {
                out.push(d);
            }
            proof {
                if let Some(t) = unescaped(v@.skip(i + 2)) {
                    assert(before + (seq![out@.last()] + t) =~= out@ + t);
                }
            }
            i += 2;
        }
    }
    proof {
        assert(v@.skip(i as int) =~= seq![]);
        assert(out@ + seq![] =~= out@);
    }
    out
}

/// Where the index of a repository is, given the user's home directory.
pub fn code_index_path_under(home: &Option<String>, repo_label: &str) -> (r: Result<
    String,
    paths::NoHome,
>)
    ensures
        match r {
            Ok(p) => home matches Some(h) && p@ == code_index_dir(h@, repo_label@),
            Err(_) => home is None,
        },
{
    match paths::under_home(home, ".sonar", "code") {
        Ok(dir) => Ok(paths::join(dir.as_str(), label_as_name(repo_label).as_str())),
        Err(e) => Err(e),
    }
}

/// Where the index of a repository is: in a directory of its own under
/// `.sonar/code` of the user's home directory.
pub fn code_index_path(repo_label: &str) -> (r: Result<String, paths::NoHome>)
    ensures
        r matches Ok(p) ==> exists|home: Seq<char>|
            p@ == #[trigger] code_index_dir(home, repo_label@),
{
    let home = paths::home_dir();
    code_index_path_under(&home, repo_label)
}

/// Two repositories have different directories, whatever their labels are.
pub proof fn law_index_dirs_differ(home: Seq<char>, a: Seq<char>, b: Seq<char>)
    requires
        a != b,
    ensures
        code_index_dir(home, a) != code_index_dir(home, b),
{
    law_label_reads_back(a);
    law_label_reads_back(b);
    law_index_dir_is_one_name(a);
    law_index_dir_is_one_name(b);
    let (x, y) = (safe_label(a), safe_label(b));
    let dir = paths::join_path(paths::join_path(home, ".sonar"@), "code"@);
    reveal_strlit("code");
    assert("code"@.len() == 4 && "code"@[0] == 'c' && "code"@[3] == 'e');
    assert(dir.last() == 'e');
    assert(x.contains(x[0]) && y.contains(y[0]));
    let front = dir.push('/');
    assert((front + x).skip(front.len() as int) =~= x);
    assert((front + y).skip(front.len() as int) =~= y);
}

/// A label's directory is one name in the directory of all code indexes: neither
/// that directory itself nor the one above, and none deeper.
pub proof fn law_index_dir_is_one_name(label: Seq<char>)
    ensures
        safe_label(label).len() > 0,
        !safe_label(label).contains('/'),
        !safe_label(label).contains('\\'),
        safe_label(label) != seq!['.'],
        safe_label(label) != seq!['.', '.'],
{
    lemma_unescaped(label);
    lemma_escaped_is_one_name(label);
    let name = safe_label(label);
    if label.len() > 0 && label != seq!['.'] && label != seq!['.', '.'] {
        reveal_with_fuel(unescaped, 3);
        if name == seq!['.'] {
            assert(name.drop_first() =~= seq![]);
            assert(label =~= seq!['.']);
        }
        if name == seq!['.', '.'] {
            assert(name.drop_first() =~= seq!['.']);
            assert(name.drop_first().drop_first() =~= seq![]);
            assert(label =~= seq!['.', '.']);
        }
    } else {
        assert(name[0] == '%');
        assert(seq!['.'][0] == '.' && seq!['.', '.'][0] == '.');
    }
}

/// A file of a repository as it is indexed.
#[derive(Debug, Clone)]
pub struct CodeDocument {
    pub repo: String,
    pub branch: String,
    pub commit_sha: String,
    pub file_path: String,
    pub language: String,
    pub content: String,
    pub size_bytes: u64,
}

/// What is indexed for a file.
#[verifier::ext_equal]
pub struct CodeView {
    pub repo: Seq<char>,
    pub branch: Seq<char>,
    pub commit_sha: Seq<char>,
    pub file_path: Seq<char>,
    pub language: Seq<char>,
    pub content: Seq<char>,
    pub size_bytes: u64,
}

impl View for CodeDocument {
    type V = CodeView;

    open spec fn view(&self) -> CodeView {
        CodeView {
            repo: self.repo@,
            branch: self.branch@,
            commit_sha: self.commit_sha@,
            file_path: self.file_path@,
            language: self.language@,
            content: self.content@,
            size_bytes: self.size_bytes,
        }
    }
}

/// The values in the document for a file.
pub open spec fn code_values(d: CodeView, f: CodeFields) -> Seq<(u32, store::DocValue)> {
    seq![
        (f.repo, store::DocValue::Text(d.repo)),
        (f.branch, store::DocValue::Text(d.branch)),
        (f.commit_sha, store::DocValue::Text(d.commit_sha)),
        (f.file_path, store::DocValue::Text(d.file_path)),
        (f.language, store::DocValue::Text(d.language)),
        (f.content, store::DocValue::Text(d.content)),
        (f.size_bytes, store::DocValue::Number(d.size_bytes)),
    ]
}

/// Whether a file can be a document, which holds less than 4 GiB.
pub open spec fn code_fits(d: CodeView) -> bool {
    text::byte_len(d.repo) + text::byte_len(d.branch) + text::byte_len(d.commit_sha)
        + text::byte_len(d.file_path) + text::byte_len(d.language) + text::byte_len(d.content) + 38
        <= u32::MAX
}

proof fn lemma_code_size(d: CodeView, f: CodeFields)
    requires
        code_fits(d),
    ensures
        store::doc_size(code_values(d, f)) <= u32::MAX,
{
    let v = code_values(d, f);
    reveal_with_fuel(store::doc_size, 8);
    assert(v.drop_last().drop_last().drop_last().drop_last().drop_last().drop_last().drop_last()
        =~= seq![]);
}

/// Whether a file can be a document.
pub fn fits_code_index(d: &CodeDocument) -> (r: bool)
    ensures
        r == code_fits(d@),
{
    text::size_of(d.repo.as_str()) + text::size_of(d.branch.as_str()) + text::size_of(
        d.commit_sha.as_str(),
    ) + text::size_of(d.file_path.as_str()) + text::size_of(d.language.as_str()) + text::size_of(
        d.content.as_str(),
    ) + 38 <= 0xffff_ffff
}

/// The document for a file: each part of it in its field.
pub fn code_document(d: &CodeDocument, fields: &CodeFields) -> (r: tantivy::TantivyDocument)
    requires
        code_fits(d@),
        fields.usable(),
    ensures
        store::doc_values(r) == code_values(d@, *fields),
{
    let ghost all = code_values(d@, *fields);
    proof {
        lemma_code_size(d@, *fields);
        assert(fields.numbers()[0] <= u16::MAX && fields.numbers()[1] <= u16::MAX
            && fields.numbers()[2] <= u16::MAX && fields.numbers()[3] <= u16::MAX
            && fields.numbers()[4] <= u16::MAX && fields.numbers()[5] <= u16::MAX
            && fields.numbers()[6] <= u16::MAX);
    }
    let mut doc = store::new_document();
    proof {
        store::lemma_has_room(doc, fields.repo, store::DocValue::Text(d.repo@), all);
    }
    store::add_text(&mut doc, fields.repo, d.repo.as_str());
    proof {
        store::lemma_has_room(doc, fields.branch, store::DocValue::Text(d.branch@), all);
    }
    store::add_text(&mut doc, fields.branch, d.branch.as_str());
    proof {
        store::lemma_has_room(doc, fields.commit_sha, store::DocValue::Text(d.commit_sha@), all);
    }
    store::add_text(&mut doc, fields.commit_sha, d.commit_sha.as_str());
    proof {
        store::lemma_has_room(doc, fields.file_path, store::DocValue::Text(d.file_path@), all);
    }
    store::add_text(&mut doc, fields.file_path, d.file_path.as_str());
    proof {
        store::lemma_has_room(doc, fields.language, store::DocValue::Text(d.language@), all);
    }
    store::add_text(&mut doc, fields.language, d.language.as_str());
    proof {
        store::lemma_has_room(doc, fields.content, store::DocValue::Text(d.content@), all);
    }
    store::add_text(&mut doc, fields.content, d.content.as_str());
    proof {
        store::lemma_has_room(doc, fields.size_bytes, store::DocValue::Number(d.size_bytes), all);
    }
    store::add_number(&mut doc, fields.size_bytes, d.size_bytes);
    assert(store::doc_values(doc) =~= all);
    doc
}

/// What is asked of a document of a repository's branch.
pub open spec fn branch_clauses(repo: Seq<char>, branch: Seq<char>, f: CodeFields) -> Seq<
    store::Clause,
> {
    seq![store::Clause::Term(f.repo, repo), store::Clause::Term(f.branch, branch)]
}

/// What the documents of a repository's branch match, and no others: by this they
/// are deleted.
pub fn branch_query(fields: &CodeFields, repo: &str, branch: &str) -> (r:
    tantivy::query::BooleanQuery)
    ensures
        store::query_clauses(r) == branch_clauses(repo@, branch@, *fields),
{
    let a = store::term_query(store::text_term(fields.repo, repo));
    let b = store::term_query(store::text_term(fields.branch, branch));
    let r = store::both_queries(&a, &b);
    assert(store::query_clauses(r) =~= branch_clauses(repo@, branch@, *fields));
    r
}

/// What to search for.
#[derive(Debug, Clone, Default)]
pub struct CodeSearchArgs {
    pub query: String,
    pub repo: Option<String>,
    pub language: Option<String>,
    pub limit: Option<usize>,
}

/// What a search asks of a document: to match the query, and to belong to the
/// repository and be in the language.
pub open spec fn code_clauses(args: CodeSearchArgs, f: CodeFields) -> Seq<store::Clause> {
    store::asked(code_schema(), f.content, args.query@) + (match args.repo {
        Some(p) => seq![store::Clause::Term(f.repo, p@)],
        None => seq![],
    }) + (match args.language {
        Some(p) => seq![store::Clause::Term(f.language, p@)],
        None => seq![],
    })
}

/// What is wrong with a query for this index, if anything is.
pub open spec fn code_query_error(query: Seq<char>) -> Option<Seq<char>> {
    store::query_error(code_schema(), code_fields().content, query)
}

/// The search for the given arguments. It fails where the query nests too deep, and
/// where it cannot be read.
pub fn code_search_query(args: &CodeSearchArgs) -> (r: Result<index::Search, SearchError>)
    ensures
        match r {
            Ok(s) => !wording::too_deep(args.query@) && code_query_error(args.query@) is None
                && store::query_clauses(s.query) == code_clauses(*args, code_fields()) && s.limit
                == index::effective_limit(args.limit),
            Err(SearchError::TooDeep) => wording::too_deep(args.query@),
            Err(SearchError::Query(e)) => !wording::too_deep(args.query@) && !wording::is_plain(
                args.query@,
            ) && code_query_error(args.query@) == Some(e@),
            Err(SearchError::DateRange(_)) => false,
        },
        wording::is_plain(args.query@) ==> r is Ok,
{
    proof {
        if wording::is_plain(args.query@) {
            wording::law_plain_is_not_too_deep(args.query@);
        }
    }
    if wording::is_too_deep(args.query.as_str()) {
        return Err(SearchError::TooDeep);
    }
    let (schema, fields) = build_code_schema();
    let mut query = match store::parsed_query(&schema, fields.content, args.query.as_str()) {
        Ok(q) => q,
        Err(e) => return Err(SearchError::Query(e)),
    };
    match &args.repo {
        Some(p) => {
            let q = store::term_query(store::text_term(fields.repo, p.as_str()));
            query = store::both_queries(&query, &q);
        },
        None => {},
    }
    match &args.language {
        Some(p) => {
            let q = store::term_query(store::text_term(fields.language, p.as_str()));
            query = store::both_queries(&query, &q);
        },
        None => {},
    }
    assert(store::query_clauses(query) =~= code_clauses(*args, code_fields()));
    Ok(index::Search { query, limit: clamp_limit(args.limit) })
}

/// A result of a search. The score is kept as the bits of a 32-bit float.
#[derive(Debug, Clone)]
pub struct CodeHit {
    pub repo: String,
    pub branch: String,
    pub commit_sha: String,
    pub file_path: String,
    pub language: String,
    pub size_bytes: u64,
    pub snippet: String,
    pub score_bits: u32,
}

/// What a result of a search says.
#[verifier::ext_equal]
pub struct CodeHitView {
    pub repo: Seq<char>,
    pub branch: Seq<char>,
    pub commit_sha: Seq<char>,
    pub file_path: Seq<char>,
    pub language: Seq<char>,
    pub size_bytes: u64,
    pub snippet: Seq<char>,
    pub score_bits: u32,
}

impl View for CodeHit {
    type V = CodeHitView;

    open spec fn view(&self) -> CodeHitView {
        CodeHitView {
            repo: self.repo@,
            branch: self.branch@,
            commit_sha: self.commit_sha@,
            file_path: self.file_path@,
            language: self.language@,
            size_bytes: self.size_bytes,
            snippet: self.snippet@,
            score_bits: self.score_bits,
        }
    }
}

/// The length of the snippets of source code.
pub const CODE_SNIPPET_CHARS: usize = 160;

/// The result that a document with the given values is shown as.
pub open spec fn code_hit_of(
    values: Seq<(u32, store::DocValue)>,
    f: CodeFields,
    score_bits: u32,
    query: Seq<char>,
) -> CodeHitView {
    CodeHitView {
        repo: index::or_empty(store::text_value(values, f.repo)),
        branch: index::or_empty(store::text_value(values, f.branch)),
        commit_sha: index::or_empty(store::text_value(values, f.commit_sha)),
        file_path: index::or_empty(store::text_value(values, f.file_path)),
        language: index::or_empty(store::text_value(values, f.language)),
        size_bytes: match store::number_value(values, f.size_bytes) {
            Some(n) => n,
            None => 0,
        },
        snippet: snippet::snippet(
            index::or_empty(store::text_value(values, f.content)),
            query,
            CODE_SNIPPET_CHARS as nat,
        ),
        score_bits,
    }
}

impl CodeHit {
    /// The result that a document is shown as.
    pub fn from_doc(
        doc: &tantivy::TantivyDocument,
        fields: &CodeFields,
        score_bits: u32,
        query: &str,
    ) -> (r: CodeHit)
        ensures
            r@ == code_hit_of(store::doc_values(*doc), *fields, score_bits, query@),
    {
        let content = text_or_empty(doc, fields.content);
        let size_bytes: u64 = match store::first_u64(doc, fields.size_bytes) {
            Some(n) => n,
            None => 0,
        };
        CodeHit {
            repo: text_or_empty(doc, fields.repo),
            branch: text_or_empty(doc, fields.branch),
            commit_sha: text_or_empty(doc, fields.commit_sha),
            file_path: text_or_empty(doc, fields.file_path),
            language: text_or_empty(doc, fields.language),
            size_bytes,
            snippet: snippet::make_snippet(content.as_str(), query, CODE_SNIPPET_CHARS),
            score_bits,
        }
    }
}

/// The results for the documents that a search found, each with its score, in the
/// order in which it found them.
pub fn collect_code_hits(
    docs: &Vec<(u32, tantivy::TantivyDocument)>,
    fields: &CodeFields,
    query: &str,
) -> (r: Vec<CodeHit>)
    ensures
        r@.len() == docs@.len(),
        forall|i: int|
            0 <= i < r@.len() ==> (#[trigger] r@[i])@ == code_hit_of(
                store::doc_values(docs@[i].1),
                *fields,
                docs@[i].0,
                query@,
            ),
{
    let mut hits: Vec<CodeHit> = Vec::new();
    let mut i: usize = 0;
    while i < docs.len()
        invariant
            i <= docs.len(),
            hits@.len() == i,
            forall|k: int|
                0 <= k < i ==> (#[trigger] hits@[k])@ == code_hit_of(
                    store::doc_values(docs@[k].1),
                    *fields,
                    docs@[k].0,
                    query@,
                ),
        decreases docs.len() - i,
    {
        let (score_bits, doc) = &docs[i];
        hits.push(CodeHit::from_doc(doc, fields, *score_bits, query));
        i += 1;
    }
    hits
}

/// What a search returns of a file is what was indexed, and the snippet of its
/// content.
pub proof fn law_hit_gives_back_file(d: CodeView, f: CodeFields, score_bits: u32, query: Seq<char>)
    requires
        f.distinct(),
    ensures
        code_hit_of(code_values(d, f), f, score_bits, query) == (CodeHitView {
            repo: d.repo,
            branch: d.branch,
            commit_sha: d.commit_sha,
            file_path: d.file_path,
            language: d.language,
            size_bytes: d.size_bytes,
            snippet: snippet::snippet(d.content, query, 160),
            score_bits,
        }),
{
    let n = f.numbers();
    assert(n[0] == f.repo && n[1] == f.branch && n[2] == f.commit_sha && n[3] == f.file_path && n[4]
        == f.language && n[5] == f.content && n[6] == f.size_bytes);
    reveal_with_fuel(store::first_value, 8);
}

/// A search for plain words is met by the files whose content holds every one of them,
/// and which are of the repository and in the language that it asks for, and by no
/// others. Of what another query looks for nothing is said.
pub proof fn law_search_is_met(d: CodeView, args: CodeSearchArgs, f: CodeFields)
    requires
        f.distinct(),
    ensures
        store::meets_all(code_values(d, f), code_clauses(args, f)) <==> (wording::is_plain(
            args.query@,
        ) ==> store::holds_words(d.content, args.query@)) && (args.repo matches Some(r) ==> d.repo
            == r@) && (args.language matches Some(l) ==> d.language == l@),
{
    let values = code_values(d, f);
    let words = store::asked(code_schema(), f.content, args.query@);
    let repo = match args.repo {
        Some(p) => seq![store::Clause::Term(f.repo, p@)],
        None => seq![],
    };
    let language = match args.language {
        Some(p) => seq![store::Clause::Term(f.language, p@)],
        None => seq![],
    };
    lemma_keywords(d, f);
    store::lemma_meets_words(values, code_schema(), f.content, args.query@, d.content);
    store::lemma_no_range(code_schema(), args.query@);
    store::lemma_meets_concat(values, words + repo, language);
    store::lemma_meets_concat(values, words, repo);
    if let Some(p) = args.repo {
        store::lemma_meets_one(values, f.repo, p@);
    }
    if let Some(p) = args.language {
        store::lemma_meets_one(values, f.language, p@);
    }
}

/// A query of plain words asks for all of them in a search of code too: a document has
/// to hold each, whatever its case.
pub proof fn law_every_word_is_asked(args: CodeSearchArgs, f: CodeFields, at: int)
    requires
        wording::is_plain(args.query@),
        0 <= at < text::words(args.query@).len(),
    ensures
        code_clauses(args, f).contains(
            store::Clause::Word(f.content, text::lowercase(text::words(args.query@)[at])),
        ),
{
    assert(code_clauses(args, f)[at] == store::Clause::Word(
        f.content,
        text::lowercase(text::words(args.query@)[at]),
    ));
}

/// What the fields hold that are searched.
proof fn lemma_keywords(d: CodeView, f: CodeFields)
    requires
        f.distinct(),
    ensures
        store::text_value(code_values(d, f), f.repo) == Some(d.repo),
        store::text_value(code_values(d, f), f.branch) == Some(d.branch),
        store::text_value(code_values(d, f), f.language) == Some(d.language),
        store::text_value(code_values(d, f), f.content) == Some(d.content),
{
    let n = f.numbers();
    assert(n[0] == f.repo && n[1] == f.branch && n[2] == f.commit_sha && n[3] == f.file_path && n[4]
        == f.language && n[5] == f.content);
    reveal_with_fuel(store::first_value, 8);
}

/// What is indexed for a file with the given content.
pub open spec fn file_document(
    repo: Seq<char>,
    branch: Seq<char>,
    commit_sha: Seq<char>,
    file: SourceFile,
    raw: Seq<char>,
) -> CodeView {
    CodeView {
        repo,
        branch,
        commit_sha,
        file_path: file.rel_path@,
        language: file.language@,
        content: parse::expanded(raw),
        size_bytes: file.size,
    }
}

/// What is indexed for the files of a repository, in order: nothing for a file
/// whose content is missing.
pub open spec fn repo_documents(
    repo: Seq<char>,
    branch: Seq<char>,
    commit_sha: Seq<char>,
    files: Seq<(SourceFile, Option<Seq<char>>)>,
) -> Seq<CodeView>
    decreases files.len(),
{
    if files.len() == 0 {
        seq![]
    } else {
        let before = repo_documents(repo, branch, commit_sha, files.drop_last());
        match files.last().1 {
            Some(raw) => before.push(
                file_document(repo, branch, commit_sha, files.last().0, raw),
            ),
            None => before,
        }
    }
}

/// The sizes of the files whose content is there, added up.
pub open spec fn readable_size(files: Seq<(SourceFile, Option<Seq<char>>)>) -> nat
    decreases files.len(),
{
    if files.len() == 0 {
        0
    } else {
        readable_size(files.drop_last()) + (if files.last().1 is Some {
            files.last().0.size as nat
        } else {
            0
        })
    }
}

/// How many files were indexed, and their sizes added up.
#[derive(Clone, Copy, Debug, PartialEq, Eq, Structural)]
pub struct Totals {
    pub files: usize,
    pub bytes: u64,
}

/// What is indexed for a file, which is counted. A file whose content could not be
/// read as text is passed over.
pub fn index_source(
    totals: &mut Totals,
    repo: &str,
    branch: &str,
    commit_sha: &str,
    file: &SourceFile,
    raw: Option<&str>,
) -> (r: Option<CodeDocument>)
    requires
        raw is Some ==> old(totals).files < usize::MAX && old(totals).bytes + file.size <= u64::MAX,
    ensures
        match raw {
            Some(s) => r matches Some(d) && d@ == file_document(
                repo@,
                branch@,
                commit_sha@,
                *file,
                s@,
            ) && final(totals).files == old(totals).files + 1 && final(totals).bytes == old(
                totals,
            ).bytes + file.size,
            None => r is None && *final(totals) == *old(totals),
        },
{
    match raw {
        Some(s) => {
            totals.files = totals.files + 1;
            totals.bytes = totals.bytes + file.size;
            Some(
                CodeDocument {
                    repo: repo.to_string(),
                    branch: branch.to_string(),
                    commit_sha: commit_sha.to_string(),
                    file_path: file.rel_path.clone(),
                    language: file.language.clone(),
                    content: parse::expand_identifiers(s),
                    size_bytes: file.size,
                },
            )
        },
        None => None,
    }
}

/// The files of a repository, each with what its content says, if it could be read.
pub open spec fn file_views(files: Seq<(SourceFile, Option<String>)>) -> Seq<
    (SourceFile, Option<Seq<char>>),
> {
    files.map_values(|f: (SourceFile, Option<String>)| (f.0, text::view_of(f.1)))
}

/// What the documents of a list say.
pub open spec fn document_views(docs: Seq<CodeDocument>) -> Seq<CodeView> {
    docs.map_values(|d: CodeDocument| d@)
}

/// Fewer files have no larger size.
proof fn lemma_readable_size(files: Seq<(SourceFile, Option<Seq<char>>)>, n: int)
    requires
        0 <= n <= files.len(),
    ensures
        readable_size(files.take(n)) <= readable_size(files),
    decreases files.len() - n,
{
    if n < files.len() {
        lemma_readable_size(files, n + 1);
        assert(files.take(n + 1).drop_last() =~= files.take(n));
    } else {
        assert(files.take(n) =~= files);
    }
}

/// What is indexed for the files of a repository's branch, how many files that are
/// and how large they are together. Files that could not be read as text are
/// neither indexed nor counted.
pub fn index_repo(
    repo: &str,
    branch: &str,
    commit_sha: &str,
    files: &Vec<(SourceFile, Option<String>)>,
) -> (r: (Vec<CodeDocument>, Totals))
    requires
        readable_size(file_views(files@)) <= u64::MAX,
    ensures
        document_views(r.0@) == repo_documents(repo@, branch@, commit_sha@, file_views(files@)),
        r.1.files == r.0@.len(),
        r.1.bytes == readable_size(file_views(files@)),
{
    let mut docs: Vec<CodeDocument> = Vec::new();
    let mut totals = Totals { files: 0, bytes: 0 };
    let mut i: usize = 0;
    let ghost all = file_views(files@);
    proof {
        assert(all.take(0) =~= seq![]);
        assert(document_views(docs@) =~= seq![]);
    }
    while i < files.len()
        invariant
            i <= files.len(),
            all == file_views(files@),
            readable_size(all) <= u64::MAX,
            document_views(docs@) == repo_documents(
                repo@,
                branch@,
                commit_sha@,
                all.take(i as int),
            ),
            totals.files == docs@.len(),
            docs@.len() <= i,
            totals.bytes == readable_size(all.take(i as int)),
        decreases files.len() - i,
    {
        let (file, content) = &files[i];
        let raw: Option<&str> = match content {
            Some(s) => Some(s.as_str()),
            None => None,
        };
        let ghost before = docs@;
        proof {
            assert(all.take(i + 1).drop_last() =~= all.take(i as int));
            assert(all.take(i + 1).last() == all[i as int]);
            assert(all[i as int] == (*file, text::view_of(*content)));
            lemma_readable_size(all, i + 1);
        }
        match index_source(&mut totals, repo, branch, commit_sha, file, raw) {
            Some(d) => {
                let ghost shown = d@;
                docs.push(d);
                assert(document_views(docs@) =~= document_views(before).push(shown));
            },
            None => {},
        }
        i += 1;
    }
    assert(all.take(i as int) =~= all);
    (docs, totals)
}

/// Whether something indexed is of a repository's branch.
pub open spec fn is_of(d: CodeView, repo: Seq<char>, branch: Seq<char>) -> bool {
    d.repo == repo && d.branch == branch
}

/// An index of code without what it holds of a repository's branch.
pub open spec fn without_branch(index: Seq<CodeView>, repo: Seq<char>, branch: Seq<char>) -> Seq<
    CodeView,
> {
    index.filter(|d: CodeView| !is_of(d, repo, branch))
}

/// What an index of code holds of a repository's branch.
pub open spec fn of_branch(index: Seq<CodeView>, repo: Seq<char>, branch: Seq<char>) -> Seq<
    CodeView,
> {
    index.filter(|d: CodeView| is_of(d, repo, branch))
}

/// An index of code after a repository's branch was indexed again: what it held of
/// the branch is gone, and the branch's files are at the end.
pub open spec fn reindexed(
    index: Seq<CodeView>,
    repo: Seq<char>,
    branch: Seq<char>,
    commit_sha: Seq<char>,
    files: Seq<(SourceFile, Option<Seq<char>>)>,
) -> Seq<CodeView> {
    without_branch(index, repo, branch) + repo_documents(repo, branch, commit_sha, files)
}

/// What is indexed for the files of a branch is of that branch.
proof fn lemma_documents_branch(
    repo: Seq<char>,
    branch: Seq<char>,
    commit_sha: Seq<char>,
    files: Seq<(SourceFile, Option<Seq<char>>)>,
)
    ensures
        forall|i: int|
            0 <= i < repo_documents(repo, branch, commit_sha, files).len() ==> is_of(
                #[trigger] repo_documents(repo, branch, commit_sha, files)[i],
                repo,
                branch,
            ),
    decreases files.len(),
{
    if files.len() > 0 {
        lemma_documents_branch(repo, branch, commit_sha, files.drop_last());
        let before = repo_documents(repo, branch, commit_sha, files.drop_last());
        let all = repo_documents(repo, branch, commit_sha, files);
        assert forall|i: int| 0 <= i < all.len() implies is_of(
            #[trigger] all[i],
            repo,
            branch,
        ) by {
            if i < before.len() {
                assert(all[i] == before[i]);
            }
        }
    }
}

/// By what the documents of a repository's branch are deleted, those and no others are
/// met.
pub proof fn law_branch_query_is_the_branch(
    d: CodeView,
    repo: Seq<char>,
    branch: Seq<char>,
    f: CodeFields,
)
    requires
        f.distinct(),
    ensures
        store::meets_all(code_values(d, f), branch_clauses(repo, branch, f)) <==> is_of(
            d,
            repo,
            branch,
        ),
{
    let (a, b) = (
        seq![store::Clause::Term(f.repo, repo)],
        seq![store::Clause::Term(f.branch, branch)],
    );
    assert(branch_clauses(repo, branch, f) =~= a + b);
    lemma_keywords(d, f);
    store::lemma_meets_concat(code_values(d, f), a, b);
    store::lemma_meets_one(code_values(d, f), f.repo, repo);
    store::lemma_meets_one(code_values(d, f), f.branch, branch);
}

/// From indexing to searching: after a repository's branch was indexed, each file that
/// could be read is in the index; it meets a search in its repository and its language
/// for plain words, whatever their case, each of which is an identifier of the file or a
/// word of one; and it is shown by that search as what it is, with the branch and the
/// commit that it was indexed for.
pub proof fn law_indexed_files_meet_their_search(
    index: Seq<CodeView>,
    repo: Seq<char>,
    branch: Seq<char>,
    commit_sha: Seq<char>,
    files: Seq<(SourceFile, Option<Seq<char>>)>,
    at: int,
    args: CodeSearchArgs,
    score_bits: u32,
)
    requires
        0 <= at < files.len(),
        files[at].1 is Some,
        wording::is_plain(args.query@),
        forall|i: int|
            0 <= i < text::words(args.query@).len() ==> parse::indexes_word(
                files[at].1->0,
                text::lowercase(#[trigger] text::words(args.query@)[i]),
            ),
        args.repo matches Some(r) ==> r@ == repo,
        args.language matches Some(l) ==> l@ == files[at].0.language@,
    ensures
        ({
            let d = file_document(repo, branch, commit_sha, files[at].0, files[at].1->0);
            let hit = code_hit_of(
                code_values(d, code_fields()),
                code_fields(),
                score_bits,
                args.query@,
            );
            &&& reindexed(index, repo, branch, commit_sha, files).contains(d)
            &&& store::meets_all(
                code_values(d, code_fields()),
                code_clauses(args, code_fields()),
            )
            &&& hit.repo == repo && hit.branch == branch && hit.commit_sha == commit_sha
            &&& hit.file_path == files[at].0.rel_path@ && hit.language == files[at].0.language@
        }),
{
    let d = file_document(repo, branch, commit_sha, files[at].0, files[at].1->0);
    let new = repo_documents(repo, branch, commit_sha, files);
    lemma_document_of(repo, branch, commit_sha, files, at);
    let k = choose|k: int| 0 <= k < new.len() && new[k] == d;
    let old = without_branch(index, repo, branch);
    assert(reindexed(index, repo, branch, commit_sha, files)[old.len() + k] == d);
    let words = text::words(args.query@);
    assert forall|i: int| 0 <= i < words.len() implies store::holds_word(
        d.content,
        text::lowercase(#[trigger] words[i]),
    ) by {
        wording::lemma_plain_words_are_ascii(args.query@, i);
        parse::law_indexed_words_are_held(files[at].1->0, text::lowercase(words[i]));
    }
    law_search_is_met(d, args, code_fields());
    law_hit_gives_back_file(d, code_fields(), score_bits, args.query@);
}

/// Each file that could be read has its document.
proof fn lemma_document_of(
    repo: Seq<char>,
    branch: Seq<char>,
    commit_sha: Seq<char>,
    files: Seq<(SourceFile, Option<Seq<char>>)>,
    at: int,
)
    requires
        0 <= at < files.len(),
        files[at].1 is Some,
    ensures
        repo_documents(repo, branch, commit_sha, files).contains(
            file_document(repo, branch, commit_sha, files[at].0, files[at].1->0),
        ),
    decreases files.len(),
{
    let d = file_document(repo, branch, commit_sha, files[at].0, files[at].1->0);
    let all = repo_documents(repo, branch, commit_sha, files);
    let before = repo_documents(repo, branch, commit_sha, files.drop_last());
    if at < files.len() - 1 {
        assert(files.drop_last()[at] == files[at]);
        lemma_document_of(repo, branch, commit_sha, files.drop_last(), at);
        let k = choose|k: int| 0 <= k < before.len() && before[k] == d;
        assert(all[k] == d);
    } else {
        assert(all[before.len() as int] == d);
    }
}

/// Indexing a repository's branch again replaces what was indexed of it: old content
/// is gone, and the index holds of the branch exactly what its files hold now.
pub proof fn law_reindex_replaces(
    index: Seq<CodeView>,
    repo: Seq<char>,
    branch: Seq<char>,
    commit_sha: Seq<char>,
    files: Seq<(SourceFile, Option<Seq<char>>)>,
)
    ensures
        of_branch(reindexed(index, repo, branch, commit_sha, files), repo, branch)
            == repo_documents(repo, branch, commit_sha, files),
{
    let is = |d: CodeView| is_of(d, repo, branch);
    let isnt = |d: CodeView| !is_of(d, repo, branch);
    let new = repo_documents(repo, branch, commit_sha, files);
    lemma_documents_branch(repo, branch, commit_sha, files);
    Seq::filter_distributes_over_add(without_branch(index, repo, branch), new, is);
    lists::lemma_filter_all(new, is);
    lists::lemma_filter_filter(index, isnt, is);
    lists::lemma_filter_none(index, |d: CodeView| isnt(d) && is(d));
    assert(Seq::<CodeView>::empty() + new =~= new);
}

/// Indexing a repository's branch again leaves everything else as it was: what was
/// indexed of its other branches, and of other repositories.
pub proof fn law_reindex_keeps_the_rest(
    index: Seq<CodeView>,
    repo: Seq<char>,
    branch: Seq<char>,
    commit_sha: Seq<char>,
    files: Seq<(SourceFile, Option<Seq<char>>)>,
)
    ensures
        without_branch(reindexed(index, repo, branch, commit_sha, files), repo, branch)
            == without_branch(index, repo, branch),
{
    let isnt = |d: CodeView| !is_of(d, repo, branch);
    let new = repo_documents(repo, branch, commit_sha, files);
    lemma_documents_branch(repo, branch, commit_sha, files);
    Seq::filter_distributes_over_add(without_branch(index, repo, branch), new, isnt);
    lists::lemma_filter_none(new, isnt);
    lists::lemma_filter_filter(index, isnt, isnt);
    assert((|d: CodeView| isnt(d) && isnt(d)) =~= isnt);
    assert(without_branch(index, repo, branch) + Seq::<CodeView>::empty() =~= without_branch(
        index,
        repo,
        branch,
    ));
}

/// Of two indexings of a repository's branch, one after the other, the later counts;
/// a second one of the same files changes nothing.
pub proof fn law_reindex_is_idempotent(
    index: Seq<CodeView>,
    repo: Seq<char>,
    branch: Seq<char>,
    earlier: (Seq<char>, Seq<(SourceFile, Option<Seq<char>>)>),
    later: (Seq<char>, Seq<(SourceFile, Option<Seq<char>>)>),
)
    ensures
        reindexed(
            reindexed(index, repo, branch, earlier.0, earlier.1),
            repo,
            branch,
            later.0,
            later.1,
        ) == reindexed(index, repo, branch, later.0, later.1),
{
    law_reindex_keeps_the_rest(index, repo, branch, earlier.0, earlier.1);
}

/// A filter only narrows a search of code: whatever else is asked, a document has to match
/// the query, and each filter asks for one thing more, for the repository first.
pub proof fn law_filters_narrow(args: CodeSearchArgs, f: CodeFields)
    ensures
        ({
            let query = store::asked(code_schema(), f.content, args.query@);
            let all = code_clauses(args, f);
            &&& query.is_prefix_of(all)
            &&& all.len() == query.len() + (if args.repo is Some {
                1int
            } else {
                0int
            }) + (if args.language is Some {
                1int
            } else {
                0int
            })
            &&& args.repo matches Some(r) ==> all[query.len() as int] == store::Clause::Term(f.repo, r@)
            &&& args.language matches Some(l) ==> all.last() == store::Clause::Term(f.language, l@)
        }),
{
}

/// What is indexed for a file is found under its path, in its language and with its size,
/// for the repository, the branch and the commit; its content begins with the file's own,
/// and that is all of it where no identifier in it is made of several words.
pub proof fn law_document_holds_file(
    repo: Seq<char>,
    branch: Seq<char>,
    commit_sha: Seq<char>,
    file: SourceFile,
    raw: Seq<char>,
)
    ensures
        ({
            let d = file_document(repo, branch, commit_sha, file, raw);
            &&& d.repo == repo && d.branch == branch && d.commit_sha == commit_sha
            &&& d.file_path == file.rel_path@ && d.language == file.language@
            &&& d.size_bytes == file.size
            &&& raw.is_prefix_of(d.content)
            &&& text::occurs(d.content, parse::split(raw))
            &&& parse::split(raw) == raw ==> d.content == raw
            &&& d.content.len() <= raw.len() + 1 + parse::split(raw).len()
        }),
{
    parse::law_expanded_begins_with_text(raw);
    parse::law_expanded_holds_split(raw);
}

/// What is indexed for two lists of files is what is indexed for each in turn. A file that
/// could be read has one document, any other none.
pub proof fn law_files_are_indexed_in_turn(
    repo: Seq<char>,
    branch: Seq<char>,
    commit_sha: Seq<char>,
    a: Seq<(SourceFile, Option<Seq<char>>)>,
    b: Seq<(SourceFile, Option<Seq<char>>)>,
)
    ensures
        repo_documents(repo, branch, commit_sha, a + b) == repo_documents(
            repo,
            branch,
            commit_sha,
            a,
        ) + repo_documents(repo, branch, commit_sha, b),
        b.len() == 1 ==> repo_documents(repo, branch, commit_sha, b) == match b[0].1 {
            Some(raw) => seq![file_document(repo, branch, commit_sha, b[0].0, raw)],
            None => Seq::empty(),
        },
    decreases b.len(),
{
    if b.len() > 0 {
        assert((a + b).drop_last() =~= a + b.drop_last());
        law_files_are_indexed_in_turn(repo, branch, commit_sha, a, b.drop_last());
        if b.len() == 1 {
            assert(b.drop_last() =~= seq![]);
            assert(repo_documents(repo, branch, commit_sha, b) =~= match b[0].1 {
                Some(raw) => seq![file_document(repo, branch, commit_sha, b[0].0, raw)],
                None => Seq::empty(),
            });
        }
    } else {
        assert(a + b =~= a);
    }
    assert(repo_documents(repo, branch, commit_sha, a + b) =~= repo_documents(
        repo,
        branch,
        commit_sha,
        a,
    ) + repo_documents(repo, branch, commit_sha, b));
}

/// The size that is told of the files of a repository is that of the documents made of
/// them, added up.
pub proof fn law_size_is_that_of_the_documents(
    repo: Seq<char>,
    branch: Seq<char>,
    commit_sha: Seq<char>,
    files: Seq<(SourceFile, Option<Seq<char>>)>,
)
    ensures
        readable_size(files) == repo_documents(repo, branch, commit_sha, files).fold_left(
            0int,
            |sum: int, d: CodeView| sum + d.size_bytes,
        ),
    decreases files.len(),
{
    let add_up = |sum: int, d: CodeView| sum + d.size_bytes;
    let docs = repo_documents(repo, branch, commit_sha, files);
    if files.len() > 0 {
        law_size_is_that_of_the_documents(repo, branch, commit_sha, files.drop_last());
        let before = repo_documents(repo, branch, commit_sha, files.drop_last());
        if files.last().1 is Some {
            assert(docs.drop_last() =~= before);
        }
    }
}

/// A label of a single name, without dashes, backslashes and percent signs, names its own
/// directory, and a slash between two labels becomes a dash between their names.
pub proof fn law_plain_labels_stay(a: Seq<char>, b: Seq<char>)
    requires
        a.len() > 0,
        b.len() > 0,
        !a.contains('/') && !a.contains('-') && !a.contains('\\') && !a.contains('%'),
        !b.contains('/') && !b.contains('-') && !b.contains('\\') && !b.contains('%'),
    ensures
        a != seq!['.'] && a != seq!['.', '.'] ==> safe_label(a) == a,
        safe_label(a + seq!['/'] + b) == a + seq!['-'] + b,
{
    lemma_escaped_plain(a);
    lemma_escaped_plain(b);
    let slash = seq!['/'];
    lemma_escaped_concat(a + slash, b);
    lemma_escaped_concat(a, slash);
    reveal_with_fuel(escaped, 2);
    assert(slash.drop_first() =~= seq![]);
    assert(escaped(slash) =~= seq!['-']);
    let label = a + slash + b;
    assert(label.len() >= 3);
    assert(seq!['.'].len() == 1 && seq!['.', '.'].len() == 2);
}

/// A text is escaped as its parts are.
proof fn lemma_escaped_concat(a: Seq<char>, b: Seq<char>)
    ensures
        escaped(a + b) == escaped(a) + escaped(b),
    decreases a.len(),
{
    if a.len() > 0 {
        assert((a + b).drop_first() =~= a.drop_first() + b);
        lemma_escaped_concat(a.drop_first(), b);
    } else {
        assert(a + b =~= b);
    }
    assert(escaped(a + b) =~= escaped(a) + escaped(b));
}

/// Characters that need no escape stay as they are.
proof fn lemma_escaped_plain(s: Seq<char>)
    requires
        !s.contains('/') && !s.contains('-') && !s.contains('\\') && !s.contains('%'),
    ensures
        escaped(s) == s,
    decreases s.len(),
{
    if s.len() > 0 {
        let rest = s.drop_first();
        assert(s.contains(s[0]));
        assert forall|c: char| rest.contains(c) implies s.contains(c) by {
            let k = choose|k: int| 0 <= k < rest.len() && rest[k] == c;
            assert(s[k + 1] == c);
        }
        lemma_escaped_plain(rest);
    }
    assert(escaped(s) =~= s);
}

/// Every file with up to four billion bytes of text can be a document.
pub proof fn law_files_up_to_four_billion_bytes_fit(d: CodeView)
    requires
        text::byte_len(d.repo) + text::byte_len(d.branch) + text::byte_len(d.commit_sha)
            + text::byte_len(d.file_path) + text::byte_len(d.language) + text::byte_len(d.content)
            <= 4_000_000_000,
    ensures
        code_fits(d),
{
}

/// The index of a repository is in the directory of all code indexes, under the name that
/// its label has there, and from that name the label is read back.
pub proof fn law_index_is_found_by_its_label(home: Seq<char>, label: Seq<char>)
    ensures
        ({
            let all = paths::join_path(paths::join_path(home, ".sonar"@), "code"@);
            let dir = code_index_dir(home, label);
            &&& paths::file_name_of(dir) == Some(safe_label(label))
            &&& paths::relative_path(all, dir) == safe_label(label)
            &&& dir_label(paths::file_name_of(dir)->0) == label
        }),
{
    law_index_dir_is_one_name(label);
    law_label_reads_back(label);
    paths::law_joined_path_is_inside(
        paths::join_path(paths::join_path(home, ".sonar"@), "code"@),
        safe_label(label),
    );
}

/// A name that is read as a label is the name that the label has, and any other name stands
/// for itself.
pub proof fn law_names_are_read_as_labels(name: Seq<char>)
    requires
        !name.contains('/'),
        !name.contains('\\'),
    ensures
        safe_label(dir_label(name)) == name || dir_label(name) == name,
{
    let none = Seq::<char>::empty();
    if name == seq!['%', '0'] {
        assert(dir_label(name) =~= none);
    } else if name == seq!['%', '.'] || name == seq!['%', '.', '.'] {
        let label = name.drop_first();
        if name == seq!['%', '.'] {
            assert(label =~= seq!['.']);
        } else {
            assert(label =~= seq!['.', '.']);
        }
        assert(safe_label(label) =~= name);
    } else if unescaped(name) is Some {
        lemma_escaped_again(name);
        let label = unescaped(name)->0;
        if label.len() == 0 {
            assert(label =~= none);
            assert(name =~= none);
        } else if label == seq!['.'] || label == seq!['.', '.'] {
            lemma_escaped_plain(label);
        }
    }
}

/// What was read from a name is escaped to that name.
proof fn lemma_escaped_again(name: Seq<char>)
    requires
        !name.contains('/'),
        !name.contains('\\'),
        unescaped(name) is Some,
    ensures
        escaped(unescaped(name)->0) == name,
    decreases name.len(),
{
    let label = unescaped(name)->0;
    if name.len() > 0 {
        assert(name.contains(name[0]));
        let n: int = if name[0] != '%' {
            1
        } else {
            2
        };
        let rest = name.skip(n);
        assert(n == 1 ==> name.drop_first() =~= rest);
        assert forall|i: int| 0 <= i < rest.len() implies rest[i] != '/' && rest[i] != '\\' by {
            assert(name.contains(name[n + i]));
        }
        lemma_escaped_again(rest);
        assert(label.drop_first() =~= unescaped(rest)->0);
        assert(escape(label[0]) =~= name.take(n));
        assert(escaped(label) =~= name);
    } else {
        assert(label =~= seq![]);
        assert(escaped(label) =~= name);
    }
}

/// What a document and a result say is what is in them, part by part, and the lists of
/// files and documents are seen file by file.
pub proof fn law_files_are_seen_as_they_are(
    d: CodeDocument,
    h: CodeHit,
    files: Seq<(SourceFile, Option<String>)>,
    docs: Seq<CodeDocument>,
    i: int,
)
    ensures
        d@.repo == d.repo@ && d@.branch == d.branch@ && d@.commit_sha == d.commit_sha@,
        d@.file_path == d.file_path@ && d@.language == d.language@ && d@.content == d.content@,
        d@.size_bytes == d.size_bytes,
        h@.repo == h.repo@ && h@.branch == h.branch@ && h@.commit_sha == h.commit_sha@,
        h@.file_path == h.file_path@ && h@.language == h.language@ && h@.snippet == h.snippet@,
        h@.size_bytes == h.size_bytes && h@.score_bits == h.score_bits,
        file_views(files).len() == files.len(),
        0 <= i < files.len() ==> file_views(files)[i].0 == files[i].0 && (file_views(files)[i].1
            is Some <==> files[i].1 is Some) && (files[i].1 matches Some(s) ==> file_views(files)[i].1
            == Some(s@)),
        document_views(docs).len() == docs.len(),
        0 <= i < docs.len() ==> document_views(docs)[i] == docs[i]@,
{
}

} // verus!
