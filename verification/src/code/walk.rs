//! Chooses the files of a repository that are worth indexing and tells the
//! language of each from its name.

use vstd::prelude::*;
use crate::lists;
use crate::paths;
use crate::text;
use crate::text::{ascii_lowercase_of, same};

verus! {

/// A file of a repository, as it is indexed.
#[derive(Debug, Clone)]
pub struct SourceFile {
    /// The path to read it from.
    pub abs_path: String,
    /// The path as seen from the root of the repository, which is stored.
    pub rel_path: String,
    /// The language, or `other`.
    pub language: String,
    /// The size in bytes.
    pub size: u64,
}

/// What a walk over a repository came upon. The size is missing where it could
/// not be told.
#[derive(Debug, Clone)]
pub struct Entry {
    pub path: String,
    pub is_file: bool,
    pub size: Option<u64>,
}

/// The largest file that is indexed. What is bigger is seldom written by hand.
pub const MAX_FILE_BYTES: u64 = 1_000_000;

/// The extensions of files that hold no text.
pub open spec fn binary_extension(ext: Seq<char>) -> bool {
    ||| ext == "png"@
    ||| ext == "jpg"@
    ||| ext == "jpeg"@
    ||| ext == "gif"@
    ||| ext == "ico"@
    ||| ext == "webp"@
    ||| ext == "bmp"@
    ||| ext == "tiff"@
    ||| ext == "pdf"@
    ||| ext == "zip"@
    ||| ext == "tar"@
    ||| ext == "gz"@
    ||| ext == "tgz"@
    ||| ext == "bz2"@
    ||| ext == "xz"@
    ||| ext == "7z"@
    ||| ext == "rar"@
    ||| ext == "exe"@
    ||| ext == "dll"@
    ||| ext == "so"@
    ||| ext == "dylib"@
    ||| ext == "a"@
    ||| ext == "o"@
    ||| ext == "wasm"@
    ||| ext == "class"@
    ||| ext == "jar"@
    ||| ext == "pyc"@
    ||| ext == "pyo"@
    ||| ext == "mp3"@
    ||| ext == "mp4"@
    ||| ext == "mov"@
    ||| ext == "avi"@
    ||| ext == "webm"@
    ||| ext == "wav"@
    ||| ext == "flac"@
    ||| ext == "ogg"@
    ||| ext == "ttf"@
    ||| ext == "otf"@
    ||| ext == "woff"@
    ||| ext == "woff2"@
    ||| ext == "eot"@
    ||| ext == "psd"@
    ||| ext == "ai"@
    ||| ext == "sketch"@
    ||| ext == "fig"@
    ||| ext == "db"@
    ||| ext == "sqlite"@
    ||| ext == "parquet"@
    ||| ext == "arrow"@
    ||| ext == "lock"@
    ||| ext == "bin"@
}

/// The language that an extension stands for. An empty extension stands for
/// none.
pub open spec fn extension_language(ext: Seq<char>) -> Seq<char> {
    if ext == "rs"@ {
        "rust"@
    } else if ext == "py"@ || ext == "pyi"@ {
        "python"@
    } else if ext == "ts"@ || ext == "tsx"@ {
        "typescript"@
    } else if ext == "js"@ || ext == "jsx"@ || ext == "mjs"@ || ext == "cjs"@ {
        "javascript"@
    } else if ext == "go"@ {
        "go"@
    } else if ext == "java"@ {
        "java"@
    } else if ext == "kt"@ || ext == "kts"@ {
        "kotlin"@
    } else if ext == "swift"@ {
        "swift"@
    } else if ext == "c"@ || ext == "h"@ {
        "c"@
    } else if ext == "cc"@ || ext == "cpp"@ || ext == "cxx"@ || ext == "hh"@ || ext == "hpp"@ || ext == "hxx"@ {
        "cpp"@
    } else if ext == "cs"@ {
        "csharp"@
    } else if ext == "rb"@ {
        "ruby"@
    } else if ext == "php"@ {
        "php"@
    } else if ext == "scala"@ || ext == "sc"@ {
        "scala"@
    } else if ext == "clj"@ || ext == "cljs"@ || ext == "cljc"@ {
        "clojure"@
    } else if ext == "ex"@ || ext == "exs"@ {
        "elixir"@
    } else if ext == "erl"@ || ext == "hrl"@ {
        "erlang"@
    } else if ext == "hs"@ {
        "haskell"@
    } else if ext == "ml"@ || ext == "mli"@ {
        "ocaml"@
    } else if ext == "lua"@ {
        "lua"@
    } else if ext == "r"@ {
        "r"@
    } else if ext == "sh"@ || ext == "bash"@ || ext == "zsh"@ || ext == "fish"@ {
        "shell"@
    } else if ext == "sql"@ {
        "sql"@
    } else if ext == "html"@ || ext == "htm"@ {
        "html"@
    } else if ext == "css"@ || ext == "scss"@ || ext == "sass"@ || ext == "less"@ {
        "css"@
    } else if ext == "vue"@ {
        "vue"@
    } else if ext == "svelte"@ {
        "svelte"@
    } else if ext == "md"@ || ext == "markdown"@ {
        "markdown"@
    } else if ext == "yml"@ || ext == "yaml"@ {
        "yaml"@
    } else if ext == "toml"@ {
        "toml"@
    } else if ext == "json"@ || ext == "jsonc"@ {
        "json"@
    } else if ext == "xml"@ {
        "xml"@
    } else if ext == "proto"@ {
        "proto"@
    } else if ext == "graphql"@ || ext == "gql"@ {
        "graphql"@
    } else if ext == "tf"@ || ext == "hcl"@ {
        "terraform"@
    } else if ext == "dockerfile"@ {
        "dockerfile"@
    } else if ext == "makefile"@ || ext == "mk"@ {
        "make"@
    } else {
        "other"@
    }
}

/// The language of a file without an extension.
pub open spec fn bare_language(name: Seq<char>) -> Seq<char> {
    if name == "dockerfile"@ {
        "dockerfile"@
    } else if name == "makefile"@ {
        "make"@
    } else if name == "justfile"@ {
        "just"@
    } else {
        "other"@
    }
}

/// A path's extension in lowercase; empty where it has none.
pub open spec fn plain_extension(path: Seq<char>) -> Seq<char> {
    match paths::extension_of(path) {
        Some(ext) => text::ascii_lowercase(ext),
        None => seq![],
    }
}

/// The language of the file with the given path, whatever the case of its name.
pub open spec fn language_of(path: Seq<char>) -> Seq<char> {
    let ext = plain_extension(path);
    if ext.len() > 0 {
        extension_language(ext)
    } else {
        match paths::file_name_of(path) {
            Some(name) => bare_language(text::ascii_lowercase(name)),
            None => "other"@,
        }
    }
}

/// Whether an entry is a file worth indexing: not empty, not too large, and not
/// of a kind that holds no text.
pub open spec fn accepted(e: Entry) -> bool {
    &&& e.is_file
    &&& e.size matches Some(n) && 0 < n <= MAX_FILE_BYTES
    &&& !binary_extension(plain_extension(e.path@))
}

/// Whether a source file is the one that an entry of a walk under `root` shows.
pub open spec fn shows(f: SourceFile, root: Seq<char>, e: Entry) -> bool {
    &&& f.abs_path@ == e.path@
    &&& f.rel_path@ == paths::relative_path(root, e.path@)
    &&& f.language@ == language_of(e.path@)
    &&& e.size == Some(f.size)
}

/// Whether an extension is that of files without text.
fn is_binary_extension(ext: &str) -> (r: bool)
    ensures
        r == binary_extension(ext@),
{
    same(ext, "png")
        || same(ext, "jpg")
        || same(ext, "jpeg")
        || same(ext, "gif")
        || same(ext, "ico")
        || same(ext, "webp")
        || same(ext, "bmp")
        || same(ext, "tiff")
        || same(ext, "pdf")
        || same(ext, "zip")
        || same(ext, "tar")
        || same(ext, "gz")
        || same(ext, "tgz")
        || same(ext, "bz2")
        || same(ext, "xz")
        || same(ext, "7z")
        || same(ext, "rar")
        || same(ext, "exe")
        || same(ext, "dll")
        || same(ext, "so")
        || same(ext, "dylib")
        || same(ext, "a")
        || same(ext, "o")
        || same(ext, "wasm")
        || same(ext, "class")
        || same(ext, "jar")
        || same(ext, "pyc")
        || same(ext, "pyo")
        || same(ext, "mp3")
        || same(ext, "mp4")
        || same(ext, "mov")
        || same(ext, "avi")
        || same(ext, "webm")
        || same(ext, "wav")
        || same(ext, "flac")
        || same(ext, "ogg")
        || same(ext, "ttf")
        || same(ext, "otf")
        || same(ext, "woff")
        || same(ext, "woff2")
        || same(ext, "eot")
        || same(ext, "psd")
        || same(ext, "ai")
        || same(ext, "sketch")
        || same(ext, "fig")
        || same(ext, "db")
        || same(ext, "sqlite")
        || same(ext, "parquet")
        || same(ext, "arrow")
        || same(ext, "lock")
        || same(ext, "bin")
}

/// The language that an extension stands for.
fn language_named(ext: &str) -> (r: &'static str)
    ensures
        r@ == extension_language(ext@),
{
    if same(ext, "rs") {
        "rust"
    } else if same(ext, "py") || same(ext, "pyi") {
        "python"
    } else if same(ext, "ts") || same(ext, "tsx") {
        "typescript"
    } else if same(ext, "js") || same(ext, "jsx") || same(ext, "mjs") || same(ext, "cjs") {
        "javascript"
    } else if same(ext, "go") {
        "go"
    } else if same(ext, "java") {
        "java"
    } else if same(ext, "kt") || same(ext, "kts") {
        "kotlin"
    } else if same(ext, "swift") {
        "swift"
    } else if same(ext, "c") || same(ext, "h") {
        "c"
    } else if same(ext, "cc") || same(ext, "cpp") || same(ext, "cxx") || same(ext, "hh") || same(ext, "hpp") || same(ext, "hxx") {
        "cpp"
    } else if same(ext, "cs") {
        "csharp"
    } else if same(ext, "rb") {
        "ruby"
    } else if same(ext, "php") {
        "php"
    } else if same(ext, "scala") || same(ext, "sc") {
        "scala"
    } else if same(ext, "clj") || same(ext, "cljs") || same(ext, "cljc") {
        "clojure"
    } else if same(ext, "ex") || same(ext, "exs") {
        "elixir"
    } else if same(ext, "erl") || same(ext, "hrl") {
        "erlang"
    } else if same(ext, "hs") {
        "haskell"
    } else if same(ext, "ml") || same(ext, "mli") {
        "ocaml"
    } else if same(ext, "lua") {
        "lua"
    } else if same(ext, "r") {
        "r"
    } else if same(ext, "sh") || same(ext, "bash") || same(ext, "zsh") || same(ext, "fish") {
        "shell"
    } else if same(ext, "sql") {
        "sql"
    } else if same(ext, "html") || same(ext, "htm") {
        "html"
    } else if same(ext, "css") || same(ext, "scss") || same(ext, "sass") || same(ext, "less") {
        "css"
    } else if same(ext, "vue") {
        "vue"
    } else if same(ext, "svelte") {
        "svelte"
    } else if same(ext, "md") || same(ext, "markdown") {
        "markdown"
    } else if same(ext, "yml") || same(ext, "yaml") {
        "yaml"
    } else if same(ext, "toml") {
        "toml"
    } else if same(ext, "json") || same(ext, "jsonc") {
        "json"
    } else if same(ext, "xml") {
        "xml"
    } else if same(ext, "proto") {
        "proto"
    } else if same(ext, "graphql") || same(ext, "gql") {
        "graphql"
    } else if same(ext, "tf") || same(ext, "hcl") {
        "terraform"
    } else if same(ext, "dockerfile") {
        "dockerfile"
    } else if same(ext, "makefile") || same(ext, "mk") {
        "make"
    } else {
        "other"
    }
}

/// A path's extension in lowercase; empty where it has none.
fn lower_extension(path: &str) -> (r: String)
    ensures
        r@ == plain_extension(path@),
{
    match paths::extension(path) {
        Some(ext) => ascii_lowercase_of(ext.as_str()),
        None => String::new(),
    }
}

/// Whether the name of a file tells that it holds no text. The content is not
/// read.
pub fn is_probably_binary(path: &str) -> (r: bool)
    ensures
        r == binary_extension(plain_extension(path@)),
{
    is_binary_extension(lower_extension(path).as_str())
}

/// The language of the file with the given path, by its extension, or by its name
/// where it has none. Defaults to `other`.
pub fn language_for_extension(path: &str) -> (r: String)
    ensures
        r@ == language_of(path@),
{
    let ext = lower_extension(path);
    if !text::is_nothing(ext.as_str()) {
        return language_named(ext.as_str()).to_string();
    }
    match paths::file_name(path) {
        Some(name) => {
            let lower = ascii_lowercase_of(name.as_str());
            if same(lower.as_str(), "dockerfile") {
                "dockerfile".to_string()
            } else if same(lower.as_str(), "makefile") {
                "make".to_string()
            } else if same(lower.as_str(), "justfile") {
                "just".to_string()
            } else {
                "other".to_string()
            }
        },
        None => "other".to_string(),
    }
}

/// Whether an entry is a file worth indexing.
pub fn is_indexable(e: &Entry) -> (r: bool)
    ensures
        r == accepted(*e),
{
    if !e.is_file {
        return false;
    }
    match e.size {
        Some(n) => n != 0 && n <= MAX_FILE_BYTES && !is_probably_binary(e.path.as_str()),
        None => false,
    }
}

/// The source files among what a walk under `root` came upon, in the order of the
/// walk.
pub fn walk_repo(root: &str, entries: &Vec<Entry>) -> (r: Vec<SourceFile>)
    ensures
        r@.len() == entries@.filter(|e: Entry| accepted(e)).len(),
        forall|i: int|
            0 <= i < r@.len() ==> shows(
                #[trigger] r@[i],
                root@,
                entries@.filter(|e: Entry| accepted(e))[i],
            ),
        forall|i: int|
            0 <= i < r@.len() ==> 0 < (#[trigger] r@[i]).size <= MAX_FILE_BYTES
                && !binary_extension(plain_extension(r@[i].abs_path@)),
{
    let mut out: Vec<SourceFile> = Vec::new();
    let mut i: usize = 0;
    let ghost keep = |e: Entry| accepted(e);
    assert(entries@.take(0).filter(keep) =~= seq![]);
    while i < entries.len()
        invariant
            i <= entries.len(),
            keep == (|e: Entry| accepted(e)),
            out@.len() == entries@.take(i as int).filter(keep).len(),
            forall|k: int|
                0 <= k < out@.len() ==> shows(
                    #[trigger] out@[k],
                    root@,
                    entries@.take(i as int).filter(keep)[k],
                ),
            forall|k: int|
                0 <= k < out@.len() ==> 0 < (#[trigger] out@[k]).size <= MAX_FILE_BYTES
                    && !binary_extension(plain_extension(out@[k].abs_path@)),
        decreases entries.len() - i,
    {
        let e: &Entry = &entries[i];
        proof {
            assert(entries@.take(i + 1) =~= entries@.take(i as int).push(*e));
            entries@.take(i as int).lemma_filter_push(*e, keep);
        }
        if is_indexable(e) {
            let size: u64 = match e.size {
                Some(n) => n,
                None => 0,
            };
            out.push(
                SourceFile {
                    abs_path: e.path.clone(),
                    rel_path: paths::relative(root, e.path.as_str()),
                    language: language_for_extension(e.path.as_str()),
                    size,
                },
            );
        }
        i += 1;
    }
    assert(entries@.take(i as int) =~= entries@);
    out
}

/// A walk gives every regular file of one byte to a million, but for those with one of
/// the extensions of files that hold no text; a file with any other extension, or with
/// none, is among what it gives.
pub proof fn law_walk_leaves_out_binaries_only(entries: Seq<Entry>, i: int)
    requires
        0 <= i < entries.len(),
    ensures
        ({
            let ext = plain_extension(entries[i].path@);
            let binary = seq!["png"@, "jpg"@, "jpeg"@, "gif"@, "ico"@, "webp"@, "bmp"@, "tiff"@].contains(ext)
                || seq!["pdf"@, "zip"@, "tar"@, "gz"@, "tgz"@, "bz2"@, "xz"@, "7z"@, "rar"@].contains(ext)
                || seq!["exe"@, "dll"@, "so"@, "dylib"@, "a"@, "o"@, "wasm"@, "class"@, "jar"@, "pyc"@, "pyo"@].contains(ext)
                || seq!["mp3"@, "mp4"@, "mov"@, "avi"@, "webm"@, "wav"@, "flac"@, "ogg"@].contains(ext)
                || seq!["ttf"@, "otf"@, "woff"@, "woff2"@, "eot"@, "psd"@, "ai"@, "sketch"@, "fig"@].contains(ext)
                || seq!["db"@, "sqlite"@, "parquet"@, "arrow"@, "lock"@, "bin"@].contains(ext);
            &&& binary_extension(ext) <==> binary
            &&& entries.filter(|e: Entry| accepted(e)).contains(entries[i]) <==> entries[i].is_file
                && (entries[i].size matches Some(n) && 1 <= n <= 1_000_000) && !binary
        }),
{
    lemma_binary_extensions(plain_extension(entries[i].path@));
    let keep = |e: Entry| accepted(e);
    lists::lemma_filter_contains(entries, keep, entries[i]);
    assert(entries.contains(entries[i]));
}

/// The extensions of files that hold no text, by what they hold.
proof fn lemma_binary_extensions(ext: Seq<char>)
    ensures
        binary_extension(ext) <==> seq!["png"@, "jpg"@, "jpeg"@, "gif"@, "ico"@, "webp"@, "bmp"@, "tiff"@].contains(ext)
            || seq!["pdf"@, "zip"@, "tar"@, "gz"@, "tgz"@, "bz2"@, "xz"@, "7z"@, "rar"@].contains(ext)
            || seq!["exe"@, "dll"@, "so"@, "dylib"@, "a"@, "o"@, "wasm"@, "class"@, "jar"@, "pyc"@, "pyo"@].contains(ext)
            || seq!["mp3"@, "mp4"@, "mov"@, "avi"@, "webm"@, "wav"@, "flac"@, "ogg"@].contains(ext)
            || seq!["ttf"@, "otf"@, "woff"@, "woff2"@, "eot"@, "psd"@, "ai"@, "sketch"@, "fig"@].contains(ext)
            || seq!["db"@, "sqlite"@, "parquet"@, "arrow"@, "lock"@, "bin"@].contains(ext),
{
    let s = seq!["png"@, "jpg"@, "jpeg"@, "gif"@, "ico"@, "webp"@, "bmp"@, "tiff"@];
    assert(s[0] == "png"@);
    assert(s[1] == "jpg"@);
    assert(s[2] == "jpeg"@);
    assert(s[3] == "gif"@);
    assert(s[4] == "ico"@);
    assert(s[5] == "webp"@);
    assert(s[6] == "bmp"@);
    assert(s[7] == "tiff"@);
    let s = seq!["pdf"@, "zip"@, "tar"@, "gz"@, "tgz"@, "bz2"@, "xz"@, "7z"@, "rar"@];
    assert(s[0] == "pdf"@);
    assert(s[1] == "zip"@);
    assert(s[2] == "tar"@);
    assert(s[3] == "gz"@);
    assert(s[4] == "tgz"@);
    assert(s[5] == "bz2"@);
    assert(s[6] == "xz"@);
    assert(s[7] == "7z"@);
    assert(s[8] == "rar"@);
    let s = seq!["exe"@, "dll"@, "so"@, "dylib"@, "a"@, "o"@, "wasm"@, "class"@, "jar"@, "pyc"@, "pyo"@];
    assert(s[0] == "exe"@);
    assert(s[1] == "dll"@);
    assert(s[2] == "so"@);
    assert(s[3] == "dylib"@);
    assert(s[4] == "a"@);
    assert(s[5] == "o"@);
    assert(s[6] == "wasm"@);
    assert(s[7] == "class"@);
    assert(s[8] == "jar"@);
    assert(s[9] == "pyc"@);
    assert(s[10] == "pyo"@);
    let s = seq!["mp3"@, "mp4"@, "mov"@, "avi"@, "webm"@, "wav"@, "flac"@, "ogg"@];
    assert(s[0] == "mp3"@);
    assert(s[1] == "mp4"@);
    assert(s[2] == "mov"@);
    assert(s[3] == "avi"@);
    assert(s[4] == "webm"@);
    assert(s[5] == "wav"@);
    assert(s[6] == "flac"@);
    assert(s[7] == "ogg"@);
    let s = seq!["ttf"@, "otf"@, "woff"@, "woff2"@, "eot"@, "psd"@, "ai"@, "sketch"@, "fig"@];
    assert(s[0] == "ttf"@);
    assert(s[1] == "otf"@);
    assert(s[2] == "woff"@);
    assert(s[3] == "woff2"@);
    assert(s[4] == "eot"@);
    assert(s[5] == "psd"@);
    assert(s[6] == "ai"@);
    assert(s[7] == "sketch"@);
    assert(s[8] == "fig"@);
    let s = seq!["db"@, "sqlite"@, "parquet"@, "arrow"@, "lock"@, "bin"@];
    assert(s[0] == "db"@);
    assert(s[1] == "sqlite"@);
    assert(s[2] == "parquet"@);
    assert(s[3] == "arrow"@);
    assert(s[4] == "lock"@);
    assert(s[5] == "bin"@);
}

/// A file whose extension or name tells its language holds text: none of the extensions
/// of files without text stands for a language.
pub proof fn law_source_is_not_binary(path: Seq<char>)
    requires
        language_of(path) != "other"@,
    ensures
        !binary_extension(plain_extension(path)),
{
    let ext = plain_extension(path);
    if ext.len() > 0 {
        lemma_language_is_text(ext);
    } else if binary_extension(ext) {
        lemma_binary_is_not_empty(ext);
    }
}

/// There is no file without text by its extension that has none.
proof fn lemma_binary_is_not_empty(ext: Seq<char>)
    requires
        binary_extension(ext),
    ensures
        ext.len() > 0,
{
    reveal_strlit("png");
    reveal_strlit("jpg");
    reveal_strlit("jpeg");
    reveal_strlit("gif");
    reveal_strlit("ico");
    reveal_strlit("webp");
    reveal_strlit("bmp");
    reveal_strlit("tiff");
    reveal_strlit("pdf");
    reveal_strlit("zip");
    reveal_strlit("tar");
    reveal_strlit("gz");
    reveal_strlit("tgz");
    reveal_strlit("bz2");
    reveal_strlit("xz");
    reveal_strlit("7z");
    reveal_strlit("rar");
    reveal_strlit("exe");
    reveal_strlit("dll");
    reveal_strlit("so");
    reveal_strlit("dylib");
    reveal_strlit("a");
    reveal_strlit("o");
    reveal_strlit("wasm");
    reveal_strlit("class");
    reveal_strlit("jar");
    reveal_strlit("pyc");
    reveal_strlit("pyo");
    reveal_strlit("mp3");
    reveal_strlit("mp4");
    reveal_strlit("mov");
    reveal_strlit("avi");
    reveal_strlit("webm");
    reveal_strlit("wav");
    reveal_strlit("flac");
    reveal_strlit("ogg");
    reveal_strlit("ttf");
    reveal_strlit("otf");
    reveal_strlit("woff");
    reveal_strlit("woff2");
    reveal_strlit("eot");
    reveal_strlit("psd");
    reveal_strlit("ai");
    reveal_strlit("sketch");
    reveal_strlit("fig");
    reveal_strlit("db");
    reveal_strlit("sqlite");
    reveal_strlit("parquet");
    reveal_strlit("arrow");
    reveal_strlit("lock");
    reveal_strlit("bin");
}

/// No extension stands both for a language and for files without text.
proof fn lemma_language_is_text(ext: Seq<char>)
    requires
        extension_language(ext) != "other"@,
    ensures
        !binary_extension(ext),
{
    reveal_strlit("png");
    assert("png"@.len() == 3 && "png"@[0] == 'p' && "png"@[1] == 'n' && "png"@[2] == 'g');
    reveal_strlit("jpg");
    assert("jpg"@.len() == 3 && "jpg"@[0] == 'j' && "jpg"@[1] == 'p' && "jpg"@[2] == 'g');
    reveal_strlit("jpeg");
    assert("jpeg"@.len() == 4 && "jpeg"@[0] == 'j' && "jpeg"@[1] == 'p' && "jpeg"@[2] == 'e' && "jpeg"@[3] == 'g');
    reveal_strlit("gif");
    assert("gif"@.len() == 3 && "gif"@[0] == 'g' && "gif"@[1] == 'i' && "gif"@[2] == 'f');
    reveal_strlit("ico");
    assert("ico"@.len() == 3 && "ico"@[0] == 'i' && "ico"@[1] == 'c' && "ico"@[2] == 'o');
    reveal_strlit("webp");
    assert("webp"@.len() == 4 && "webp"@[0] == 'w' && "webp"@[1] == 'e' && "webp"@[2] == 'b' && "webp"@[3] == 'p');
    reveal_strlit("bmp");
    assert("bmp"@.len() == 3 && "bmp"@[0] == 'b' && "bmp"@[1] == 'm' && "bmp"@[2] == 'p');
    reveal_strlit("tiff");
    assert("tiff"@.len() == 4 && "tiff"@[0] == 't' && "tiff"@[1] == 'i' && "tiff"@[2] == 'f' && "tiff"@[3] == 'f');
    reveal_strlit("pdf");
    assert("pdf"@.len() == 3 && "pdf"@[0] == 'p' && "pdf"@[1] == 'd' && "pdf"@[2] == 'f');
    reveal_strlit("zip");
    assert("zip"@.len() == 3 && "zip"@[0] == 'z' && "zip"@[1] == 'i' && "zip"@[2] == 'p');
    reveal_strlit("tar");
    assert("tar"@.len() == 3 && "tar"@[0] == 't' && "tar"@[1] == 'a' && "tar"@[2] == 'r');
    reveal_strlit("gz");
    assert("gz"@.len() == 2 && "gz"@[0] == 'g' && "gz"@[1] == 'z');
    reveal_strlit("tgz");
    assert("tgz"@.len() == 3 && "tgz"@[0] == 't' && "tgz"@[1] == 'g' && "tgz"@[2] == 'z');
    reveal_strlit("bz2");
    assert("bz2"@.len() == 3 && "bz2"@[0] == 'b' && "bz2"@[1] == 'z' && "bz2"@[2] == '2');
    reveal_strlit("xz");
    assert("xz"@.len() == 2 && "xz"@[0] == 'x' && "xz"@[1] == 'z');
    reveal_strlit("7z");
    assert("7z"@.len() == 2 && "7z"@[0] == '7' && "7z"@[1] == 'z');
    reveal_strlit("rar");
    assert("rar"@.len() == 3 && "rar"@[0] == 'r' && "rar"@[1] == 'a' && "rar"@[2] == 'r');
    reveal_strlit("exe");
    assert("exe"@.len() == 3 && "exe"@[0] == 'e' && "exe"@[1] == 'x' && "exe"@[2] == 'e');
    reveal_strlit("dll");
    assert("dll"@.len() == 3 && "dll"@[0] == 'd' && "dll"@[1] == 'l' && "dll"@[2] == 'l');
    reveal_strlit("so");
    assert("so"@.len() == 2 && "so"@[0] == 's' && "so"@[1] == 'o');
    reveal_strlit("dylib");
    assert("dylib"@.len() == 5 && "dylib"@[0] == 'd' && "dylib"@[1] == 'y' && "dylib"@[2] == 'l' && "dylib"@[3] == 'i' && "dylib"@[4] == 'b');
    reveal_strlit("a");
    assert("a"@.len() == 1 && "a"@[0] == 'a');
    reveal_strlit("o");
    assert("o"@.len() == 1 && "o"@[0] == 'o');
    reveal_strlit("wasm");
    assert("wasm"@.len() == 4 && "wasm"@[0] == 'w' && "wasm"@[1] == 'a' && "wasm"@[2] == 's' && "wasm"@[3] == 'm');
    reveal_strlit("class");
    assert("class"@.len() == 5 && "class"@[0] == 'c' && "class"@[1] == 'l' && "class"@[2] == 'a' && "class"@[3] == 's' && "class"@[4] == 's');
    reveal_strlit("jar");
    assert("jar"@.len() == 3 && "jar"@[0] == 'j' && "jar"@[1] == 'a' && "jar"@[2] == 'r');
    reveal_strlit("pyc");
    assert("pyc"@.len() == 3 && "pyc"@[0] == 'p' && "pyc"@[1] == 'y' && "pyc"@[2] == 'c');
    reveal_strlit("pyo");
    assert("pyo"@.len() == 3 && "pyo"@[0] == 'p' && "pyo"@[1] == 'y' && "pyo"@[2] == 'o');
    reveal_strlit("mp3");
    assert("mp3"@.len() == 3 && "mp3"@[0] == 'm' && "mp3"@[1] == 'p' && "mp3"@[2] == '3');
    reveal_strlit("mp4");
    assert("mp4"@.len() == 3 && "mp4"@[0] == 'm' && "mp4"@[1] == 'p' && "mp4"@[2] == '4');
    reveal_strlit("mov");
    assert("mov"@.len() == 3 && "mov"@[0] == 'm' && "mov"@[1] == 'o' && "mov"@[2] == 'v');
    reveal_strlit("avi");
    assert("avi"@.len() == 3 && "avi"@[0] == 'a' && "avi"@[1] == 'v' && "avi"@[2] == 'i');
    reveal_strlit("webm");
    assert("webm"@.len() == 4 && "webm"@[0] == 'w' && "webm"@[1] == 'e' && "webm"@[2] == 'b' && "webm"@[3] == 'm');
    reveal_strlit("wav");
    assert("wav"@.len() == 3 && "wav"@[0] == 'w' && "wav"@[1] == 'a' && "wav"@[2] == 'v');
    reveal_strlit("flac");
    assert("flac"@.len() == 4 && "flac"@[0] == 'f' && "flac"@[1] == 'l' && "flac"@[2] == 'a' && "flac"@[3] == 'c');
    reveal_strlit("ogg");
    assert("ogg"@.len() == 3 && "ogg"@[0] == 'o' && "ogg"@[1] == 'g' && "ogg"@[2] == 'g');
    reveal_strlit("ttf");
    assert("ttf"@.len() == 3 && "ttf"@[0] == 't' && "ttf"@[1] == 't' && "ttf"@[2] == 'f');
    reveal_strlit("otf");
    assert("otf"@.len() == 3 && "otf"@[0] == 'o' && "otf"@[1] == 't' && "otf"@[2] == 'f');
    reveal_strlit("woff");
    assert("woff"@.len() == 4 && "woff"@[0] == 'w' && "woff"@[1] == 'o' && "woff"@[2] == 'f' && "woff"@[3] == 'f');
    reveal_strlit("woff2");
    assert("woff2"@.len() == 5 && "woff2"@[0] == 'w' && "woff2"@[1] == 'o' && "woff2"@[2] == 'f' && "woff2"@[3] == 'f' && "woff2"@[4] == '2');
    reveal_strlit("eot");
    assert("eot"@.len() == 3 && "eot"@[0] == 'e' && "eot"@[1] == 'o' && "eot"@[2] == 't');
    reveal_strlit("psd");
    assert("psd"@.len() == 3 && "psd"@[0] == 'p' && "psd"@[1] == 's' && "psd"@[2] == 'd');
    reveal_strlit("ai");
    assert("ai"@.len() == 2 && "ai"@[0] == 'a' && "ai"@[1] == 'i');
    reveal_strlit("sketch");
    assert("sketch"@.len() == 6 && "sketch"@[0] == 's' && "sketch"@[1] == 'k' && "sketch"@[2] == 'e' && "sketch"@[3] == 't' && "sketch"@[4] == 'c' && "sketch"@[5] == 'h');
    reveal_strlit("fig");
    assert("fig"@.len() == 3 && "fig"@[0] == 'f' && "fig"@[1] == 'i' && "fig"@[2] == 'g');
    reveal_strlit("db");
    assert("db"@.len() == 2 && "db"@[0] == 'd' && "db"@[1] == 'b');
    reveal_strlit("sqlite");
    assert("sqlite"@.len() == 6 && "sqlite"@[0] == 's' && "sqlite"@[1] == 'q' && "sqlite"@[2] == 'l' && "sqlite"@[3] == 'i' && "sqlite"@[4] == 't' && "sqlite"@[5] == 'e');
    reveal_strlit("parquet");
    assert("parquet"@.len() == 7 && "parquet"@[0] == 'p' && "parquet"@[1] == 'a' && "parquet"@[2] == 'r' && "parquet"@[3] == 'q' && "parquet"@[4] == 'u' && "parquet"@[5] == 'e' && "parquet"@[6] == 't');
    reveal_strlit("arrow");
    assert("arrow"@.len() == 5 && "arrow"@[0] == 'a' && "arrow"@[1] == 'r' && "arrow"@[2] == 'r' && "arrow"@[3] == 'o' && "arrow"@[4] == 'w');
    reveal_strlit("lock");
    assert("lock"@.len() == 4 && "lock"@[0] == 'l' && "lock"@[1] == 'o' && "lock"@[2] == 'c' && "lock"@[3] == 'k');
    reveal_strlit("bin");
    assert("bin"@.len() == 3 && "bin"@[0] == 'b' && "bin"@[1] == 'i' && "bin"@[2] == 'n');
    reveal_strlit("rs");
    assert("rs"@.len() == 2 && "rs"@[0] == 'r' && "rs"@[1] == 's');
    reveal_strlit("py");
    assert("py"@.len() == 2 && "py"@[0] == 'p' && "py"@[1] == 'y');
    reveal_strlit("pyi");
    assert("pyi"@.len() == 3 && "pyi"@[0] == 'p' && "pyi"@[1] == 'y' && "pyi"@[2] == 'i');
    reveal_strlit("ts");
    assert("ts"@.len() == 2 && "ts"@[0] == 't' && "ts"@[1] == 's');
    reveal_strlit("tsx");
    assert("tsx"@.len() == 3 && "tsx"@[0] == 't' && "tsx"@[1] == 's' && "tsx"@[2] == 'x');
    reveal_strlit("js");
    assert("js"@.len() == 2 && "js"@[0] == 'j' && "js"@[1] == 's');
    reveal_strlit("jsx");
    assert("jsx"@.len() == 3 && "jsx"@[0] == 'j' && "jsx"@[1] == 's' && "jsx"@[2] == 'x');
    reveal_strlit("mjs");
    assert("mjs"@.len() == 3 && "mjs"@[0] == 'm' && "mjs"@[1] == 'j' && "mjs"@[2] == 's');
    reveal_strlit("cjs");
    assert("cjs"@.len() == 3 && "cjs"@[0] == 'c' && "cjs"@[1] == 'j' && "cjs"@[2] == 's');
    reveal_strlit("go");
    assert("go"@.len() == 2 && "go"@[0] == 'g' && "go"@[1] == 'o');
    reveal_strlit("java");
    assert("java"@.len() == 4 && "java"@[0] == 'j' && "java"@[1] == 'a' && "java"@[2] == 'v' && "java"@[3] == 'a');
    reveal_strlit("kt");
    assert("kt"@.len() == 2 && "kt"@[0] == 'k' && "kt"@[1] == 't');
    reveal_strlit("kts");
    assert("kts"@.len() == 3 && "kts"@[0] == 'k' && "kts"@[1] == 't' && "kts"@[2] == 's');
    reveal_strlit("swift");
    assert("swift"@.len() == 5 && "swift"@[0] == 's' && "swift"@[1] == 'w' && "swift"@[2] == 'i' && "swift"@[3] == 'f' && "swift"@[4] == 't');
    reveal_strlit("c");
    assert("c"@.len() == 1 && "c"@[0] == 'c');
    reveal_strlit("h");
    assert("h"@.len() == 1 && "h"@[0] == 'h');
    reveal_strlit("cc");
    assert("cc"@.len() == 2 && "cc"@[0] == 'c' && "cc"@[1] == 'c');
    reveal_strlit("cpp");
    assert("cpp"@.len() == 3 && "cpp"@[0] == 'c' && "cpp"@[1] == 'p' && "cpp"@[2] == 'p');
    reveal_strlit("cxx");
    assert("cxx"@.len() == 3 && "cxx"@[0] == 'c' && "cxx"@[1] == 'x' && "cxx"@[2] == 'x');
    reveal_strlit("hh");
    assert("hh"@.len() == 2 && "hh"@[0] == 'h' && "hh"@[1] == 'h');
    reveal_strlit("hpp");
    assert("hpp"@.len() == 3 && "hpp"@[0] == 'h' && "hpp"@[1] == 'p' && "hpp"@[2] == 'p');
    reveal_strlit("hxx");
    assert("hxx"@.len() == 3 && "hxx"@[0] == 'h' && "hxx"@[1] == 'x' && "hxx"@[2] == 'x');
    reveal_strlit("cs");
    assert("cs"@.len() == 2 && "cs"@[0] == 'c' && "cs"@[1] == 's');
    reveal_strlit("rb");
    assert("rb"@.len() == 2 && "rb"@[0] == 'r' && "rb"@[1] == 'b');
    reveal_strlit("php");
    assert("php"@.len() == 3 && "php"@[0] == 'p' && "php"@[1] == 'h' && "php"@[2] == 'p');
    reveal_strlit("scala");
    assert("scala"@.len() == 5 && "scala"@[0] == 's' && "scala"@[1] == 'c' && "scala"@[2] == 'a' && "scala"@[3] == 'l' && "scala"@[4] == 'a');
    reveal_strlit("sc");
    assert("sc"@.len() == 2 && "sc"@[0] == 's' && "sc"@[1] == 'c');
    reveal_strlit("clj");
    assert("clj"@.len() == 3 && "clj"@[0] == 'c' && "clj"@[1] == 'l' && "clj"@[2] == 'j');
    reveal_strlit("cljs");
    assert("cljs"@.len() == 4 && "cljs"@[0] == 'c' && "cljs"@[1] == 'l' && "cljs"@[2] == 'j' && "cljs"@[3] == 's');
    reveal_strlit("cljc");
    assert("cljc"@.len() == 4 && "cljc"@[0] == 'c' && "cljc"@[1] == 'l' && "cljc"@[2] == 'j' && "cljc"@[3] == 'c');
    reveal_strlit("ex");
    assert("ex"@.len() == 2 && "ex"@[0] == 'e' && "ex"@[1] == 'x');
    reveal_strlit("exs");
    assert("exs"@.len() == 3 && "exs"@[0] == 'e' && "exs"@[1] == 'x' && "exs"@[2] == 's');
    reveal_strlit("erl");
    assert("erl"@.len() == 3 && "erl"@[0] == 'e' && "erl"@[1] == 'r' && "erl"@[2] == 'l');
    reveal_strlit("hrl");
    assert("hrl"@.len() == 3 && "hrl"@[0] == 'h' && "hrl"@[1] == 'r' && "hrl"@[2] == 'l');
    reveal_strlit("hs");
    assert("hs"@.len() == 2 && "hs"@[0] == 'h' && "hs"@[1] == 's');
    reveal_strlit("ml");
    assert("ml"@.len() == 2 && "ml"@[0] == 'm' && "ml"@[1] == 'l');
    reveal_strlit("mli");
    assert("mli"@.len() == 3 && "mli"@[0] == 'm' && "mli"@[1] == 'l' && "mli"@[2] == 'i');
    reveal_strlit("lua");
    assert("lua"@.len() == 3 && "lua"@[0] == 'l' && "lua"@[1] == 'u' && "lua"@[2] == 'a');
    reveal_strlit("r");
    assert("r"@.len() == 1 && "r"@[0] == 'r');
    reveal_strlit("sh");
    assert("sh"@.len() == 2 && "sh"@[0] == 's' && "sh"@[1] == 'h');
    reveal_strlit("bash");
    assert("bash"@.len() == 4 && "bash"@[0] == 'b' && "bash"@[1] == 'a' && "bash"@[2] == 's' && "bash"@[3] == 'h');
    reveal_strlit("zsh");
    assert("zsh"@.len() == 3 && "zsh"@[0] == 'z' && "zsh"@[1] == 's' && "zsh"@[2] == 'h');
    reveal_strlit("fish");
    assert("fish"@.len() == 4 && "fish"@[0] == 'f' && "fish"@[1] == 'i' && "fish"@[2] == 's' && "fish"@[3] == 'h');
    reveal_strlit("sql");
    assert("sql"@.len() == 3 && "sql"@[0] == 's' && "sql"@[1] == 'q' && "sql"@[2] == 'l');
    reveal_strlit("html");
    assert("html"@.len() == 4 && "html"@[0] == 'h' && "html"@[1] == 't' && "html"@[2] == 'm' && "html"@[3] == 'l');
    reveal_strlit("htm");
    assert("htm"@.len() == 3 && "htm"@[0] == 'h' && "htm"@[1] == 't' && "htm"@[2] == 'm');
    reveal_strlit("css");
    assert("css"@.len() == 3 && "css"@[0] == 'c' && "css"@[1] == 's' && "css"@[2] == 's');
    reveal_strlit("scss");
    assert("scss"@.len() == 4 && "scss"@[0] == 's' && "scss"@[1] == 'c' && "scss"@[2] == 's' && "scss"@[3] == 's');
    reveal_strlit("sass");
    assert("sass"@.len() == 4 && "sass"@[0] == 's' && "sass"@[1] == 'a' && "sass"@[2] == 's' && "sass"@[3] == 's');
    reveal_strlit("less");
    assert("less"@.len() == 4 && "less"@[0] == 'l' && "less"@[1] == 'e' && "less"@[2] == 's' && "less"@[3] == 's');
    reveal_strlit("vue");
    assert("vue"@.len() == 3 && "vue"@[0] == 'v' && "vue"@[1] == 'u' && "vue"@[2] == 'e');
    reveal_strlit("svelte");
    assert("svelte"@.len() == 6 && "svelte"@[0] == 's' && "svelte"@[1] == 'v' && "svelte"@[2] == 'e' && "svelte"@[3] == 'l' && "svelte"@[4] == 't' && "svelte"@[5] == 'e');
    reveal_strlit("md");
    assert("md"@.len() == 2 && "md"@[0] == 'm' && "md"@[1] == 'd');
    reveal_strlit("markdown");
    assert("markdown"@.len() == 8 && "markdown"@[0] == 'm' && "markdown"@[1] == 'a' && "markdown"@[2] == 'r' && "markdown"@[3] == 'k' && "markdown"@[4] == 'd' && "markdown"@[5] == 'o' && "markdown"@[6] == 'w' && "markdown"@[7] == 'n');
    reveal_strlit("yml");
    assert("yml"@.len() == 3 && "yml"@[0] == 'y' && "yml"@[1] == 'm' && "yml"@[2] == 'l');
    reveal_strlit("yaml");
    assert("yaml"@.len() == 4 && "yaml"@[0] == 'y' && "yaml"@[1] == 'a' && "yaml"@[2] == 'm' && "yaml"@[3] == 'l');
    reveal_strlit("toml");
    assert("toml"@.len() == 4 && "toml"@[0] == 't' && "toml"@[1] == 'o' && "toml"@[2] == 'm' && "toml"@[3] == 'l');
    reveal_strlit("json");
    assert("json"@.len() == 4 && "json"@[0] == 'j' && "json"@[1] == 's' && "json"@[2] == 'o' && "json"@[3] == 'n');
    reveal_strlit("jsonc");
    assert("jsonc"@.len() == 5 && "jsonc"@[0] == 'j' && "jsonc"@[1] == 's' && "jsonc"@[2] == 'o' && "jsonc"@[3] == 'n' && "jsonc"@[4] == 'c');
    reveal_strlit("xml");
    assert("xml"@.len() == 3 && "xml"@[0] == 'x' && "xml"@[1] == 'm' && "xml"@[2] == 'l');
    reveal_strlit("proto");
    assert("proto"@.len() == 5 && "proto"@[0] == 'p' && "proto"@[1] == 'r' && "proto"@[2] == 'o' && "proto"@[3] == 't' && "proto"@[4] == 'o');
    reveal_strlit("graphql");
    assert("graphql"@.len() == 7 && "graphql"@[0] == 'g' && "graphql"@[1] == 'r' && "graphql"@[2] == 'a' && "graphql"@[3] == 'p' && "graphql"@[4] == 'h' && "graphql"@[5] == 'q' && "graphql"@[6] == 'l');
    reveal_strlit("gql");
    assert("gql"@.len() == 3 && "gql"@[0] == 'g' && "gql"@[1] == 'q' && "gql"@[2] == 'l');
    reveal_strlit("tf");
    assert("tf"@.len() == 2 && "tf"@[0] == 't' && "tf"@[1] == 'f');
    reveal_strlit("hcl");
    assert("hcl"@.len() == 3 && "hcl"@[0] == 'h' && "hcl"@[1] == 'c' && "hcl"@[2] == 'l');
    reveal_strlit("dockerfile");
    assert("dockerfile"@.len() == 10 && "dockerfile"@[0] == 'd' && "dockerfile"@[1] == 'o' && "dockerfile"@[2] == 'c' && "dockerfile"@[3] == 'k' && "dockerfile"@[4] == 'e' && "dockerfile"@[5] == 'r' && "dockerfile"@[6] == 'f' && "dockerfile"@[7] == 'i' && "dockerfile"@[8] == 'l' && "dockerfile"@[9] == 'e');
    reveal_strlit("makefile");
    assert("makefile"@.len() == 8 && "makefile"@[0] == 'm' && "makefile"@[1] == 'a' && "makefile"@[2] == 'k' && "makefile"@[3] == 'e' && "makefile"@[4] == 'f' && "makefile"@[5] == 'i' && "makefile"@[6] == 'l' && "makefile"@[7] == 'e');
    reveal_strlit("mk");
    assert("mk"@.len() == 2 && "mk"@[0] == 'm' && "mk"@[1] == 'k');
}

/// The language of a file is told by what follows the last dot of its name, in lowercase,
/// wherever the file is and whatever is before the dot. There are no other extensions
/// that tell a language than these.
pub proof fn law_language_goes_by_extension(dir: Seq<char>, stem: Seq<char>, ext: Seq<char>)
    requires
        stem.len() > 0,
        ext.len() > 0,
        !stem.contains('/'),
        !ext.contains('/'),
        !ext.contains('.'),
    ensures
        ({
            let low = text::ascii_lowercase(ext);
            let path = dir + seq!['/'] + (stem + seq!['.'] + ext);
            &&& plain_extension(path) == low
            &&& language_of(path) == language_of(stem + seq!['.'] + ext)
            &&& language_of(path) == extension_language(low)
            &&& language_of(path) != "other"@ <==> seq!["rs"@, "py"@, "pyi"@, "ts"@, "tsx"@, "js"@, "jsx"@, "mjs"@, "cjs"@].contains(low)
                || seq!["go"@, "java"@, "kt"@, "kts"@, "swift"@, "c"@, "h"@, "cc"@, "cpp"@].contains(low)
                || seq!["cxx"@, "hh"@, "hpp"@, "hxx"@, "cs"@, "rb"@, "php"@, "scala"@, "sc"@].contains(low)
                || seq!["clj"@, "cljs"@, "cljc"@, "ex"@, "exs"@, "erl"@, "hrl"@, "hs"@, "ml"@].contains(low)
                || seq!["mli"@, "lua"@, "r"@, "sh"@, "bash"@, "zsh"@, "fish"@, "sql"@, "html"@].contains(low)
                || seq!["htm"@, "css"@, "scss"@, "sass"@, "less"@, "vue"@, "svelte"@, "md"@, "markdown"@].contains(low)
                || seq!["yml"@, "yaml"@, "toml"@, "json"@, "jsonc"@, "xml"@, "proto"@, "graphql"@, "gql"@].contains(low)
                || seq!["tf"@, "hcl"@, "dockerfile"@, "makefile"@, "mk"@].contains(low)
        }),
{
    let low = text::ascii_lowercase(ext);
    let name = stem + seq!['.'] + ext;
    assert(name.len() > 2);
    assert(!name.contains('/')) by {
        if name.contains('/') {
            let k = choose|k: int| 0 <= k < name.len() && name[k] == '/';
            if k < stem.len() {
                assert(stem[k] == '/');
            } else if k > stem.len() {
                assert(ext[k - stem.len() - 1] == '/');
            }
        }
    }
    paths::law_extension(dir, stem, ext);
    lemma_known_extensions(low);
}

/// The extensions that tell a language.
proof fn lemma_known_extensions(ext: Seq<char>)
    ensures
        extension_language(ext) != "other"@ <==> seq!["rs"@, "py"@, "pyi"@, "ts"@, "tsx"@, "js"@, "jsx"@, "mjs"@, "cjs"@].contains(ext)
            || seq!["go"@, "java"@, "kt"@, "kts"@, "swift"@, "c"@, "h"@, "cc"@, "cpp"@].contains(ext)
            || seq!["cxx"@, "hh"@, "hpp"@, "hxx"@, "cs"@, "rb"@, "php"@, "scala"@, "sc"@].contains(ext)
            || seq!["clj"@, "cljs"@, "cljc"@, "ex"@, "exs"@, "erl"@, "hrl"@, "hs"@, "ml"@].contains(ext)
            || seq!["mli"@, "lua"@, "r"@, "sh"@, "bash"@, "zsh"@, "fish"@, "sql"@, "html"@].contains(ext)
            || seq!["htm"@, "css"@, "scss"@, "sass"@, "less"@, "vue"@, "svelte"@, "md"@, "markdown"@].contains(ext)
            || seq!["yml"@, "yaml"@, "toml"@, "json"@, "jsonc"@, "xml"@, "proto"@, "graphql"@, "gql"@].contains(ext)
            || seq!["tf"@, "hcl"@, "dockerfile"@, "makefile"@, "mk"@].contains(ext),
{
    let s = seq!["rs"@, "py"@, "pyi"@, "ts"@, "tsx"@, "js"@, "jsx"@, "mjs"@, "cjs"@];
    assert(s[0] == "rs"@);
    assert(s[1] == "py"@);
    assert(s[2] == "pyi"@);
    assert(s[3] == "ts"@);
    assert(s[4] == "tsx"@);
    assert(s[5] == "js"@);
    assert(s[6] == "jsx"@);
    assert(s[7] == "mjs"@);
    assert(s[8] == "cjs"@);
    let s = seq!["go"@, "java"@, "kt"@, "kts"@, "swift"@, "c"@, "h"@, "cc"@, "cpp"@];
    assert(s[0] == "go"@);
    assert(s[1] == "java"@);
    assert(s[2] == "kt"@);
    assert(s[3] == "kts"@);
    assert(s[4] == "swift"@);
    assert(s[5] == "c"@);
    assert(s[6] == "h"@);
    assert(s[7] == "cc"@);
    assert(s[8] == "cpp"@);
    let s = seq!["cxx"@, "hh"@, "hpp"@, "hxx"@, "cs"@, "rb"@, "php"@, "scala"@, "sc"@];
    assert(s[0] == "cxx"@);
    assert(s[1] == "hh"@);
    assert(s[2] == "hpp"@);
    assert(s[3] == "hxx"@);
    assert(s[4] == "cs"@);
    assert(s[5] == "rb"@);
    assert(s[6] == "php"@);
    assert(s[7] == "scala"@);
    assert(s[8] == "sc"@);
    let s = seq!["clj"@, "cljs"@, "cljc"@, "ex"@, "exs"@, "erl"@, "hrl"@, "hs"@, "ml"@];
    assert(s[0] == "clj"@);
    assert(s[1] == "cljs"@);
    assert(s[2] == "cljc"@);
    assert(s[3] == "ex"@);
    assert(s[4] == "exs"@);
    assert(s[5] == "erl"@);
    assert(s[6] == "hrl"@);
    assert(s[7] == "hs"@);
    assert(s[8] == "ml"@);
    let s = seq!["mli"@, "lua"@, "r"@, "sh"@, "bash"@, "zsh"@, "fish"@, "sql"@, "html"@];
    assert(s[0] == "mli"@);
    assert(s[1] == "lua"@);
    assert(s[2] == "r"@);
    assert(s[3] == "sh"@);
    assert(s[4] == "bash"@);
    assert(s[5] == "zsh"@);
    assert(s[6] == "fish"@);
    assert(s[7] == "sql"@);
    assert(s[8] == "html"@);
    let s = seq!["htm"@, "css"@, "scss"@, "sass"@, "less"@, "vue"@, "svelte"@, "md"@, "markdown"@];
    assert(s[0] == "htm"@);
    assert(s[1] == "css"@);
    assert(s[2] == "scss"@);
    assert(s[3] == "sass"@);
    assert(s[4] == "less"@);
    assert(s[5] == "vue"@);
    assert(s[6] == "svelte"@);
    assert(s[7] == "md"@);
    assert(s[8] == "markdown"@);
    let s = seq!["yml"@, "yaml"@, "toml"@, "json"@, "jsonc"@, "xml"@, "proto"@, "graphql"@, "gql"@];
    assert(s[0] == "yml"@);
    assert(s[1] == "yaml"@);
    assert(s[2] == "toml"@);
    assert(s[3] == "json"@);
    assert(s[4] == "jsonc"@);
    assert(s[5] == "xml"@);
    assert(s[6] == "proto"@);
    assert(s[7] == "graphql"@);
    assert(s[8] == "gql"@);
    let s = seq!["tf"@, "hcl"@, "dockerfile"@, "makefile"@, "mk"@];
    assert(s[0] == "tf"@);
    assert(s[1] == "hcl"@);
    assert(s[2] == "dockerfile"@);
    assert(s[3] == "makefile"@);
    assert(s[4] == "mk"@);
    lemma_languages_have_names();
}

/// No language is called `other`.
proof fn lemma_languages_have_names()
    ensures
        "c"@ != "other"@,
        "clojure"@ != "other"@,
        "cpp"@ != "other"@,
        "csharp"@ != "other"@,
        "css"@ != "other"@,
        "dockerfile"@ != "other"@,
        "elixir"@ != "other"@,
        "erlang"@ != "other"@,
        "go"@ != "other"@,
        "graphql"@ != "other"@,
        "haskell"@ != "other"@,
        "html"@ != "other"@,
        "java"@ != "other"@,
        "javascript"@ != "other"@,
        "json"@ != "other"@,
        "kotlin"@ != "other"@,
        "lua"@ != "other"@,
        "make"@ != "other"@,
        "markdown"@ != "other"@,
        "ocaml"@ != "other"@,
        "php"@ != "other"@,
        "proto"@ != "other"@,
        "python"@ != "other"@,
        "r"@ != "other"@,
        "ruby"@ != "other"@,
        "rust"@ != "other"@,
        "scala"@ != "other"@,
        "shell"@ != "other"@,
        "sql"@ != "other"@,
        "svelte"@ != "other"@,
        "swift"@ != "other"@,
        "terraform"@ != "other"@,
        "toml"@ != "other"@,
        "typescript"@ != "other"@,
        "vue"@ != "other"@,
        "xml"@ != "other"@,
        "yaml"@ != "other"@,
{
    reveal_strlit("c");
    assert("c"@.len() == 1 && "c"@[0] == 'c');
    reveal_strlit("clojure");
    assert("clojure"@.len() == 7 && "clojure"@[0] == 'c' && "clojure"@[1] == 'l');
    reveal_strlit("cpp");
    assert("cpp"@.len() == 3 && "cpp"@[0] == 'c' && "cpp"@[1] == 'p');
    reveal_strlit("csharp");
    assert("csharp"@.len() == 6 && "csharp"@[0] == 'c' && "csharp"@[1] == 's');
    reveal_strlit("css");
    assert("css"@.len() == 3 && "css"@[0] == 'c' && "css"@[1] == 's');
    reveal_strlit("dockerfile");
    assert("dockerfile"@.len() == 10 && "dockerfile"@[0] == 'd' && "dockerfile"@[1] == 'o');
    reveal_strlit("elixir");
    assert("elixir"@.len() == 6 && "elixir"@[0] == 'e' && "elixir"@[1] == 'l');
    reveal_strlit("erlang");
    assert("erlang"@.len() == 6 && "erlang"@[0] == 'e' && "erlang"@[1] == 'r');
    reveal_strlit("go");
    assert("go"@.len() == 2 && "go"@[0] == 'g' && "go"@[1] == 'o');
    reveal_strlit("graphql");
    assert("graphql"@.len() == 7 && "graphql"@[0] == 'g' && "graphql"@[1] == 'r');
    reveal_strlit("haskell");
    assert("haskell"@.len() == 7 && "haskell"@[0] == 'h' && "haskell"@[1] == 'a');
    reveal_strlit("html");
    assert("html"@.len() == 4 && "html"@[0] == 'h' && "html"@[1] == 't');
    reveal_strlit("java");
    assert("java"@.len() == 4 && "java"@[0] == 'j' && "java"@[1] == 'a');
    reveal_strlit("javascript");
    assert("javascript"@.len() == 10 && "javascript"@[0] == 'j' && "javascript"@[1] == 'a');
    reveal_strlit("json");
    assert("json"@.len() == 4 && "json"@[0] == 'j' && "json"@[1] == 's');
    reveal_strlit("kotlin");
    assert("kotlin"@.len() == 6 && "kotlin"@[0] == 'k' && "kotlin"@[1] == 'o');
    reveal_strlit("lua");
    assert("lua"@.len() == 3 && "lua"@[0] == 'l' && "lua"@[1] == 'u');
    reveal_strlit("make");
    assert("make"@.len() == 4 && "make"@[0] == 'm' && "make"@[1] == 'a');
    reveal_strlit("markdown");
    assert("markdown"@.len() == 8 && "markdown"@[0] == 'm' && "markdown"@[1] == 'a');
    reveal_strlit("ocaml");
    assert("ocaml"@.len() == 5 && "ocaml"@[0] == 'o' && "ocaml"@[1] == 'c');
    reveal_strlit("php");
    assert("php"@.len() == 3 && "php"@[0] == 'p' && "php"@[1] == 'h');
    reveal_strlit("proto");
    assert("proto"@.len() == 5 && "proto"@[0] == 'p' && "proto"@[1] == 'r');
    reveal_strlit("python");
    assert("python"@.len() == 6 && "python"@[0] == 'p' && "python"@[1] == 'y');
    reveal_strlit("r");
    assert("r"@.len() == 1 && "r"@[0] == 'r');
    reveal_strlit("ruby");
    assert("ruby"@.len() == 4 && "ruby"@[0] == 'r' && "ruby"@[1] == 'u');
    reveal_strlit("rust");
    assert("rust"@.len() == 4 && "rust"@[0] == 'r' && "rust"@[1] == 'u');
    reveal_strlit("scala");
    assert("scala"@.len() == 5 && "scala"@[0] == 's' && "scala"@[1] == 'c');
    reveal_strlit("shell");
    assert("shell"@.len() == 5 && "shell"@[0] == 's' && "shell"@[1] == 'h');
    reveal_strlit("sql");
    assert("sql"@.len() == 3 && "sql"@[0] == 's' && "sql"@[1] == 'q');
    reveal_strlit("svelte");
    assert("svelte"@.len() == 6 && "svelte"@[0] == 's' && "svelte"@[1] == 'v');
    reveal_strlit("swift");
    assert("swift"@.len() == 5 && "swift"@[0] == 's' && "swift"@[1] == 'w');
    reveal_strlit("terraform");
    assert("terraform"@.len() == 9 && "terraform"@[0] == 't' && "terraform"@[1] == 'e');
    reveal_strlit("toml");
    assert("toml"@.len() == 4 && "toml"@[0] == 't' && "toml"@[1] == 'o');
    reveal_strlit("typescript");
    assert("typescript"@.len() == 10 && "typescript"@[0] == 't' && "typescript"@[1] == 'y');
    reveal_strlit("vue");
    assert("vue"@.len() == 3 && "vue"@[0] == 'v' && "vue"@[1] == 'u');
    reveal_strlit("xml");
    assert("xml"@.len() == 3 && "xml"@[0] == 'x' && "xml"@[1] == 'm');
    reveal_strlit("yaml");
    assert("yaml"@.len() == 4 && "yaml"@[0] == 'y' && "yaml"@[1] == 'a');
    reveal_strlit("other");
    assert("other"@.len() == 5 && "other"@[0] == 'o' && "other"@[1] == 't');
    reveal_strlit("just");
    assert("just"@.len() == 4 && "just"@[0] == 'j' && "just"@[1] == 'u');
}

/// A file without an extension has its language from its whole name, in whatever case:
/// there are three such names.
pub proof fn law_language_of_bare_name(dir: Seq<char>, name: Seq<char>)
    requires
        paths::is_name(name),
        !name.drop_first().contains('.'),
    ensures
        ({
            let low = text::ascii_lowercase(name);
            let path = dir + seq!['/'] + name;
            &&& plain_extension(path) == Seq::<char>::empty()
            &&& language_of(path) == language_of(name)
            &&& low == "dockerfile"@ ==> language_of(path) == "dockerfile"@
            &&& low == "makefile"@ ==> language_of(path) == "make"@
            &&& low == "justfile"@ ==> language_of(path) == "just"@
            &&& low != "dockerfile"@ && low != "makefile"@ && low != "justfile"@ ==> language_of(
                path,
            ) == "other"@
        }),
{
    paths::law_no_extension(dir, name);
    paths::law_last_name(dir, name);
    reveal_strlit("dockerfile");
    reveal_strlit("makefile");
    reveal_strlit("justfile");
    assert("dockerfile"@.len() == 10);
    assert("makefile"@.len() == 8 && "makefile"@[0] == 'm');
    assert("justfile"@.len() == 8 && "justfile"@[0] == 'j');
}

/// The case of ASCII letters in a path matters neither for its language nor for
/// whether its file holds no text.
pub proof fn law_case_does_not_matter(path: Seq<char>)
    ensures
        language_of(text::ascii_lowercase(path)) == language_of(path),
        plain_extension(text::ascii_lowercase(path)) == plain_extension(path),
{
    let low = |s: Seq<char>| text::ascii_lowercase(s);
    let lowered = text::ascii_lowercase(path);
    lemma_names_lowered(path);
    let all = paths::names(path);
    assert(paths::names(lowered) == all.map_values(low));
    if all.len() >= 1 {
        let name = all[all.len() - 1];
        assert(paths::names(lowered)[all.len() - 1] == text::ascii_lowercase(name));
        lemma_lowered_is(name, seq!['.', '.']);
        lemma_lowered_twice(name);
        lemma_last_index_lowered(name, '.');
        let dot = paths::last_index(name, '.');
        lemma_last_index_range(name, '.');
        if dot > 0 {
            let ext = name.skip(dot + 1);
            assert(text::ascii_lowercase(name).skip(dot + 1) =~= text::ascii_lowercase(ext));
            lemma_lowered_twice(ext);
        }
    }
}

/// A text that was lowered stays as it is.
proof fn lemma_lowered_twice(s: Seq<char>)
    ensures
        text::ascii_lowercase(text::ascii_lowercase(s)) == text::ascii_lowercase(s),
{
    assert(text::ascii_lowercase(text::ascii_lowercase(s)) =~= text::ascii_lowercase(s));
}

/// Only a text without letters is lowered to a text without letters, itself.
proof fn lemma_lowered_is(s: Seq<char>, plain: Seq<char>)
    requires
        forall|i: int| 0 <= i < plain.len() ==> #[trigger] plain[i] == '.',
    ensures
        text::ascii_lowercase(s) == plain <==> s == plain,
{
    if text::ascii_lowercase(s) == plain {
        assert forall|i: int| 0 <= i < s.len() implies s[i] == plain[i] by {
            assert(text::ascii_lowercase(s)[i] == plain[i]);
        }
        assert(s =~= plain);
    }
    if s == plain {
        assert(text::ascii_lowercase(s) =~= plain);
    }
}

proof fn lemma_last_index_range(s: Seq<char>, c: char)
    ensures
        -1 <= paths::last_index(s, c) < s.len(),
    decreases s.len(),
{
    if s.len() > 0 {
        lemma_last_index_range(s.drop_last(), c);
    }
}

proof fn lemma_last_index_lowered(s: Seq<char>, c: char)
    requires
        c == '.',
    ensures
        paths::last_index(text::ascii_lowercase(s), c) == paths::last_index(s, c),
    decreases s.len(),
{
    if s.len() > 0 {
        lemma_last_index_lowered(s.drop_last(), c);
        assert(text::ascii_lowercase(s).drop_last() =~= text::ascii_lowercase(s.drop_last()));
        assert(text::ascii_lowercase(s).last() == text::ascii_lower(s.last()));
    }
}

/// The parts of a lowered path are the lowered parts of the path.
proof fn lemma_parts_lowered(path: Seq<char>)
    ensures
        paths::parts(text::ascii_lowercase(path)) == paths::parts(path).map_values(
            |s: Seq<char>| text::ascii_lowercase(s),
        ),
        path.len() > 0 && path.last() != '/' ==> paths::parts(path).len() > 0,
    decreases path.len(),
{
    let low = |s: Seq<char>| text::ascii_lowercase(s);
    let lowered = text::ascii_lowercase(path);
    if path.len() > 0 {
        let front = path.drop_last();
        let c = path.last();
        lemma_parts_lowered(front);
        assert(lowered.drop_last() =~= text::ascii_lowercase(front));
        assert(lowered.last() == text::ascii_lower(c));
        let before = paths::parts(front);
        if c != '/' {
            if path.len() > 1 && path[path.len() - 2] != '/' {
                assert(front.last() == path[path.len() - 2]);
                assert(lowered[path.len() - 2] == text::ascii_lower(path[path.len() - 2]));
                assert(text::ascii_lowercase(before.last().push(c)) =~= text::ascii_lowercase(
                    before.last(),
                ).push(text::ascii_lower(c)));
                assert(paths::parts(lowered) =~= paths::parts(path).map_values(low));
            } else {
                if path.len() > 1 {
                    assert(lowered[path.len() - 2] == '/');
                }
                assert(text::ascii_lowercase(seq![c]) =~= seq![text::ascii_lower(c)]);
                assert(paths::parts(lowered) =~= paths::parts(path).map_values(low));
            }
        } else {
            assert(paths::parts(lowered) =~= paths::parts(path).map_values(low));
        }
    } else {
        assert(paths::parts(lowered) =~= paths::parts(path).map_values(low));
    }
}

/// The names of a lowered path are the lowered names of the path.
proof fn lemma_names_lowered(path: Seq<char>)
    ensures
        paths::names(text::ascii_lowercase(path)) == paths::names(path).map_values(
            |s: Seq<char>| text::ascii_lowercase(s),
        ),
{
    let low = |s: Seq<char>| text::ascii_lowercase(s);
    let keep = |p: Seq<char>| p != seq!['.'];
    lemma_parts_lowered(path);
    assert forall|x: Seq<char>| keep(#[trigger] low(x)) == keep(x) by {
        lemma_lowered_is(x, seq!['.']);
    }
    lists::lemma_filter_map(paths::parts(path), low, keep);
}

/// A file that a walk gives has its own path, size and language, and as its path in the
/// repository what follows the path of the root, however deep the file is.
pub proof fn law_walked_files_are_shown_as_they_are(
    f: SourceFile,
    root: Seq<char>,
    e: Entry,
    rest: Seq<char>,
)
    requires
        shows(f, root, e),
        root.len() > 0,
        root.last() != '/',
        e.path@ == root + seq!['/'] + rest,
    ensures
        f.abs_path@ == e.path@,
        f.rel_path@ == rest,
        f.language@ == language_of(e.path@),
        e.size == Some(f.size),
{
    paths::law_relative_path(root, rest, rest);
}

} // verus!
