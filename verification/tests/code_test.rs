use sonar::code::index::{
    branch_query, build_code_schema, code_document, code_index_path_under, code_search_query,
    collect_code_hits, fits_code_index, index_repo, index_source, label_as_name, label_of_name,
    CodeFields, CodeHit, CodeSearchArgs, Totals, CODE_WRITER_HEAP_BYTES,
};
use sonar::code::parse::{expand_identifiers, split_camel};
use sonar::code::walk::{
    is_indexable, is_probably_binary, language_for_extension, walk_repo, Entry, SourceFile,
    MAX_FILE_BYTES,
};
use sonar::index::SearchError;
use tantivy::collector::TopDocs;
use tantivy::{Index, IndexWriter, TantivyDocument};

#[test]
fn splits_camel_case() {
    assert_eq!(split_camel("processOrderItem"), "process Order Item");
}

#[test]
fn splits_pascal_case() {
    assert_eq!(split_camel("FooBarBaz"), "Foo Bar Baz");
}

#[test]
fn keeps_consecutive_capitals_grouped() {
    assert_eq!(split_camel("HTTPRequest"), "HTTP Request");
    assert_eq!(split_camel("parseHTTPHeader"), "parse HTTP Header");
}

#[test]
fn splits_digit_letter_boundary() {
    assert_eq!(split_camel("ccai2639"), "ccai 2639");
    assert_eq!(split_camel("v2Api"), "v 2 Api");
}

#[test]
fn leaves_snake_case_alone() {
    assert_eq!(split_camel("foo_bar_baz"), "foo_bar_baz");
}

#[test]
fn expand_keeps_original() {
    let out = expand_identifiers("processOrder");
    assert!(out.contains("processOrder"));
    assert!(out.contains("process Order"));
}

#[test]
fn expand_noop_when_no_camel() {
    let out = expand_identifiers("just plain words");
    assert_eq!(out, "just plain words");
}

#[test]
fn expanded_form_follows_after_a_space() {
    assert_eq!(expand_identifiers("processOrderItem"), "processOrderItem process Order Item");
    assert_eq!(expand_identifiers("HTTPRequest"), "HTTPRequest HTTP Request");
    assert_eq!(expand_identifiers("foo_bar"), "foo_bar");
    assert_eq!(expand_identifiers("ccai_2639"), "ccai_2639");
    assert_eq!(expand_identifiers(""), "");
}

#[test]
fn split_at_the_edges() {
    assert_eq!(split_camel(""), "");
    assert_eq!(split_camel("ABc"), "A Bc");
    assert_eq!(split_camel("aBCd"), "a B Cd");
    assert_eq!(split_camel("AB"), "AB");
    assert_eq!(split_camel("IFoo"), "I Foo");
    assert_eq!(split_camel("let IFoo"), "let I Foo");
    assert_eq!(split_camel("éÉ"), "é É");
    assert_eq!(split_camel("字1"), "字 1");
}

#[test]
fn split_is_idempotent() {
    for s in ["parseHTTPHeader", "v2Api", "XMLHttpRequest2", "aBCd", "ABCdE1f"] {
        let once = split_camel(s);
        assert_eq!(split_camel(&once), once);
        assert_eq!(once.replace(' ', ""), s);
    }
}

#[test]
fn language_detection_basics() {
    assert_eq!(language_for_extension("foo.rs"), "rust");
    assert_eq!(language_for_extension("foo.py"), "python");
    assert_eq!(language_for_extension("foo.tsx"), "typescript");
    assert_eq!(language_for_extension("Makefile"), "make");
    assert_eq!(language_for_extension("Dockerfile"), "dockerfile");
    assert_eq!(language_for_extension("README"), "other");
}

#[test]
fn every_language_has_its_extensions() {
    let table = [
        ("rust", "rs"),
        ("python", "py pyi"),
        ("typescript", "ts tsx"),
        ("javascript", "js jsx mjs cjs"),
        ("go", "go"),
        ("java", "java"),
        ("kotlin", "kt kts"),
        ("swift", "swift"),
        ("c", "c h"),
        ("cpp", "cc cpp cxx hh hpp hxx"),
        ("csharp", "cs"),
        ("ruby", "rb"),
        ("php", "php"),
        ("scala", "scala sc"),
        ("clojure", "clj cljs cljc"),
        ("elixir", "ex exs"),
        ("erlang", "erl hrl"),
        ("haskell", "hs"),
        ("ocaml", "ml mli"),
        ("lua", "lua"),
        ("r", "r"),
        ("shell", "sh bash zsh fish"),
        ("sql", "sql"),
        ("html", "html htm"),
        ("css", "css scss sass less"),
        ("vue", "vue"),
        ("svelte", "svelte"),
        ("markdown", "md markdown"),
        ("yaml", "yml yaml"),
        ("toml", "toml"),
        ("json", "json jsonc"),
        ("xml", "xml"),
        ("proto", "proto"),
        ("graphql", "graphql gql"),
        ("terraform", "tf hcl"),
        ("dockerfile", "dockerfile"),
        ("make", "makefile mk"),
    ];
    for (language, extensions) in table {
        for ext in extensions.split(' ') {
            assert_eq!(language_for_extension(&format!("a/b.x.{ext}")), language);
            assert_eq!(language_for_extension(&format!("F.{}", ext.to_uppercase())), language);
        }
    }
    assert_eq!(language_for_extension("x.unknown"), "other");
    assert_eq!(language_for_extension("dir.rs/justfile"), "just");
    assert_eq!(language_for_extension(".rs"), "other");
    assert_eq!(language_for_extension("makefile."), "other");
    assert_eq!(language_for_extension(""), "other");
    assert_eq!(language_for_extension("a/.."), "other");
}

#[test]
fn binaries_by_extension() {
    for ext in "png jpg jpeg gif ico webp bmp tiff pdf zip tar gz tgz bz2 xz 7z rar exe dll so dylib a o wasm class jar pyc pyo mp3 mp4 mov avi webm wav flac ogg ttf otf woff woff2 eot psd ai sketch fig db sqlite parquet arrow lock bin".split(' ') {
        assert!(is_probably_binary(&format!("x/y.{ext}")));
        assert!(is_probably_binary(&format!("x/y.{}", ext.to_uppercase())));
    }
    assert!(!is_probably_binary("png"));
    assert!(!is_probably_binary(".png"));
    assert!(!is_probably_binary("a.png/b.rs"));
}

fn entry(path: &str, is_file: bool, size: Option<u64>) -> Entry {
    Entry { path: path.to_string(), is_file, size }
}

#[test]
fn walker_keeps_what_is_worth_indexing() {
    let entries = vec![
        entry("/r", false, Some(4096)),
        entry("/r/src/main.rs", true, Some(25)),
        entry("/r/src/util.py", true, Some(MAX_FILE_BYTES)),
        entry("/r/empty.rs", true, Some(0)),
        entry("/r/image.png", true, Some(7)),
        entry("/r/big.rs", true, Some(MAX_FILE_BYTES + 1)),
        entry("/r/unknown.rs", true, None),
        entry("/elsewhere/x.go", true, Some(1)),
    ];
    let files = walk_repo("/r", &entries);
    let seen: Vec<(&str, &str, &str, u64)> = files
        .iter()
        .map(|f| (f.abs_path.as_str(), f.rel_path.as_str(), f.language.as_str(), f.size))
        .collect();
    assert_eq!(
        seen,
        vec![
            ("/r/src/main.rs", "src/main.rs", "rust", 25),
            ("/r/src/util.py", "src/util.py", "python", 1_000_000),
            ("/elsewhere/x.go", "/elsewhere/x.go", "go", 1),
        ]
    );
    assert!(is_indexable(&entries[1]));
    assert!(!is_indexable(&entries[0]));
    assert_eq!(walk_repo("/", &vec![entry("/a.rs", true, Some(1))])[0].rel_path, "a.rs");
}

fn file(rel: &str, body: &str) -> SourceFile {
    SourceFile {
        abs_path: format!("/repo/{rel}"),
        rel_path: rel.to_string(),
        language: language_for_extension(rel),
        size: body.len() as u64,
    }
}

fn run(writer: &mut IndexWriter, fields: &CodeFields, repo: &str, branch: &str, sha: &str, files: &[(&str, &str)]) -> Totals {
    writer.delete_query(Box::new(branch_query(fields, repo, branch))).unwrap();
    let list: Vec<(SourceFile, Option<String>)> =
        files.iter().map(|(rel, body)| (file(rel, body), Some(body.to_string()))).collect();
    let (docs, totals) = index_repo(repo, branch, sha, &list);
    for doc in &docs {
        assert!(fits_code_index(doc));
        writer.add_document(code_document(doc, fields)).unwrap();
    }
    writer.commit().unwrap();
    totals
}

fn search(index: &Index, fields: &CodeFields, args: CodeSearchArgs) -> Vec<CodeHit> {
    let plan = code_search_query(&args).unwrap();
    let reader = index.reader().unwrap();
    let searcher = reader.searcher();
    let found = searcher.search(&plan.query, &TopDocs::with_limit(plan.limit).order_by_score()).unwrap();
    let docs: Vec<(u32, TantivyDocument)> =
        found.into_iter().map(|(score, addr)| (score.to_bits(), searcher.doc(addr).unwrap())).collect();
    collect_code_hits(&docs, fields, &args.query)
}

#[test]
fn index_and_search_round_trip() {
    let (schema, fields) = build_code_schema();
    let index = Index::create_in_ram(schema);
    let mut writer: IndexWriter = index.writer(CODE_WRITER_HEAP_BYTES).unwrap();
    let totals = run(
        &mut writer,
        &fields,
        "myproject",
        "development",
        "abc1234",
        &[
            ("src/auth.rs", "fn loginUser(name: &str) -> Result<()> { Ok(()) }"),
            ("src/db.py", "def connect_database(): return None"),
            ("README.md", "# myproject\n\nA demo for sonar code search."),
        ],
    );
    assert_eq!(totals.files, 3, "all three files should index");
    assert_eq!(totals.bytes, 49 + 35 + 42);

    let hits = search(
        &index,
        &fields,
        CodeSearchArgs { query: "loginUser".into(), repo: Some("myproject".into()), ..Default::default() },
    );
    assert!(!hits.is_empty(), "phrase match on identifier should hit auth.rs");
    assert!(hits[0].file_path.ends_with("auth.rs"));
    assert_eq!(hits[0].language, "rust");
    assert_eq!(hits[0].branch, "development");
    assert_eq!(hits[0].repo, "myproject");
    assert_eq!(hits[0].commit_sha, "abc1234");
    assert_eq!(hits[0].size_bytes, 49);
    assert!(f32::from_bits(hits[0].score_bits) > 0.0);

    let hits = search(
        &index,
        &fields,
        CodeSearchArgs { query: "login".into(), repo: Some("myproject".into()), ..Default::default() },
    );
    assert!(hits.iter().any(|h| h.file_path.ends_with("auth.rs")));

    let hits = search(
        &index,
        &fields,
        CodeSearchArgs {
            query: "database".into(),
            repo: Some("myproject".into()),
            language: Some("python".into()),
            ..Default::default()
        },
    );
    assert!(hits.iter().all(|h| h.language == "python"));
    assert!(hits.iter().any(|h| h.file_path.ends_with("db.py")));

    let hits = search(
        &index,
        &fields,
        CodeSearchArgs { query: "database".into(), repo: Some("other".into()), ..Default::default() },
    );
    assert!(hits.is_empty());
    let hits = search(
        &index,
        &fields,
        CodeSearchArgs { query: "database OR demo OR loginUser".into(), limit: Some(0), ..Default::default() },
    );
    assert_eq!(hits.len(), 1);
}

#[test]
fn reindex_replaces_old_docs() {
    let (schema, fields) = build_code_schema();
    let index = Index::create_in_ram(schema);
    let mut writer: IndexWriter = index.writer(CODE_WRITER_HEAP_BYTES).unwrap();
    run(&mut writer, &fields, "rex", "development", "shax", &[("src/c.rs", "fn foreign_function() {}")]);
    run(&mut writer, &fields, "rep", "other", "sha0", &[("src/b.rs", "fn kept_function() {}")]);
    run(&mut writer, &fields, "rep", "development", "sha1", &[("src/a.rs", "fn old_function() {}")]);
    run(&mut writer, &fields, "rep", "development", "sha2", &[("src/a.rs", "fn new_function() {}")]);

    let find = |query: &str| {
        search(
            &index,
            &fields,
            CodeSearchArgs { query: query.into(), repo: Some("rep".into()), ..Default::default() },
        )
    };
    let old = find("old_function");
    let new = find("new_function");
    assert!(old.is_empty(), "old content should be gone after reindex");
    assert!(!new.is_empty(), "new content should be present");
    assert_eq!(new[0].commit_sha, "sha2");
    assert_eq!(find("kept_function").len(), 1);
    let foreign = search(
        &index,
        &fields,
        CodeSearchArgs { query: "foreign_function".into(), ..Default::default() },
    );
    assert_eq!(foreign.len(), 1);
    assert_eq!(foreign[0].repo, "rex");
}

#[test]
fn unreadable_files_are_passed_over() {
    let mut totals = Totals { files: 2, bytes: 10 };
    let f = file("a.rs", "fn a() {}");
    assert!(index_source(&mut totals, "r", "b", "s", &f, None).is_none());
    assert_eq!(totals, Totals { files: 2, bytes: 10 });
    let doc = index_source(&mut totals, "r", "b", "s", &f, Some("fn aB() {}")).unwrap();
    assert_eq!(totals, Totals { files: 3, bytes: 19 });
    assert_eq!(doc.content, "fn aB() {} fn a B() {}");
}

#[test]
fn bad_query_is_told() {
    match code_search_query(&CodeSearchArgs { query: "nofield:x".into(), ..Default::default() }) {
        Err(SearchError::Query(why)) => assert!(why.contains("nofield")),
        _ => panic!("expected a query error"),
    }
    let deep = "NOT ".repeat(200) + "a";
    match code_search_query(&CodeSearchArgs { query: deep, ..Default::default() }) {
        Err(SearchError::TooDeep) => {}
        _ => panic!("expected a refusal"),
    }
}

#[test]
fn index_directories() {
    let home = Some("/home/u".to_string());
    assert_eq!(code_index_path_under(&home, "org/repo").unwrap(), "/home/u/.sonar/code/org-repo");
    assert_eq!(code_index_path_under(&home, "a/b\\c").unwrap(), "/home/u/.sonar/code/a-b%bc");
    assert_eq!(code_index_path_under(&home, "plain").unwrap(), "/home/u/.sonar/code/plain");
    assert!(code_index_path_under(&None, "plain").is_err());
    assert_ne!(
        code_index_path_under(&home, "one").unwrap(),
        code_index_path_under(&home, "two").unwrap()
    );
}

#[test]
fn labels_have_directories_of_their_own() {
    let labels = [
        "", ".", "..", "a", "org/repo", "org-repo", "org\\repo", "org--repo", "org//repo", "%", "%%",
        "%-", "%b", "%0", "%.", "%..", "...", "a%b", "-", "/", "\\",
    ];
    let names: Vec<String> = labels.iter().map(|l| label_as_name(l)).collect();
    for (i, name) in names.iter().enumerate() {
        assert_eq!(label_of_name(name), labels[i]);
        assert!(!name.is_empty() && name != "." && name != "..");
        assert!(!name.contains('/') && !name.contains('\\'));
        assert!(names[..i].iter().all(|n| n != name));
    }
    assert_eq!(label_as_name("myproject"), "myproject");
    assert_eq!(label_of_name("odd%name"), "odd%name");
}

#[test]
fn a_whole_run_is_counted() {
    let files = vec![
        (file("a.rs", "fn aB() {}"), Some("fn aB() {}".to_string())),
        (file("b.rs", "????"), None),
        (file("c.md", "text"), Some("text".to_string())),
    ];
    let (docs, totals) = index_repo("r", "b", "s", &files);
    assert_eq!(totals, Totals { files: 2, bytes: 14 });
    let seen: Vec<(&str, &str)> =
        docs.iter().map(|d| (d.file_path.as_str(), d.content.as_str())).collect();
    assert_eq!(seen, vec![("a.rs", "fn aB() {} fn a B() {}"), ("c.md", "text")]);
    assert!(docs.iter().all(|d| d.repo == "r" && d.branch == "b" && d.commit_sha == "s"));
}

#[test]
fn words_of_identifiers_are_found() {
    let (schema, fields) = build_code_schema();
    let index = Index::create_in_ram(schema);
    let mut writer: IndexWriter = index.writer(CODE_WRITER_HEAP_BYTES).unwrap();
    let body = "fn processOrderItem(v2Api: HTTPRequest) { parse_XMLDoc() }";
    run(&mut writer, &fields, "r", "b", "s", &[("a.rs", body)]);
    let found = |q: &str| {
        !search(&index, &fields, CodeSearchArgs { query: q.into(), ..Default::default() }).is_empty()
    };
    for q in [
        "order", "process", "ITEM", "processOrderItem", "http", "request", "HTTPRequest", "api",
        "v2api", "2", "parse", "xmldoc", "XML", "doc", "order item http",
    ] {
        assert!(found(q), "{q}");
    }
    for q in ["ord", "orderitem", "quest", "order missing"] {
        assert!(!found(q), "{q}");
    }
}
