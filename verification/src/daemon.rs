//! Keeps the index of transcripts up to date: which files are transcripts, what is
//! indexed for one, and when a file that changes is indexed again.

use vstd::prelude::*;
use crate::json;
use crate::lists;
use crate::parse;
use crate::parse::{parse_line, EventView, IndexableEvent};
use crate::paths;
use crate::text;
use crate::text::{blank, same};

verus! {

/// The memory that the writer of the index may use before it writes to disk.
pub const WRITER_HEAP_BYTES: usize = 50_000_000;

/// How long a file has to be left alone before it is indexed again, in
/// nanoseconds.
pub const DEBOUNCE_NANOS: u64 = 750_000_000;

/// Where an agent keeps its transcripts under a home directory: in `projects` in
/// its own directory there.
pub open spec fn transcripts_dir(agent: Seq<char>, home: Seq<char>) -> Seq<char> {
    paths::join_path(paths::join_path(home, paths::agent_dir(agent)), "projects"@)
}

/// Where an agent keeps its transcripts, given the user's home directory.
pub fn transcripts_root_under(agent: &str, home: &Option<String>) -> (r: Result<
    String,
    paths::NoHome,
>)
    ensures
        match r {
            Ok(p) => home matches Some(h) && p@ == transcripts_dir(agent@, h@),
            Err(_) => home is None,
        },
{
    paths::under_home(home, paths::agent_dir_name(agent).as_str(), "projects")
}

/// Where an agent keeps its transcripts in the user's home directory, wherever that
/// is.
pub fn default_transcripts_root(agent: &str) -> (r: Result<String, paths::NoHome>)
    ensures
        r matches Ok(p) ==> exists|home: Seq<char>| p@ == #[trigger] transcripts_dir(agent@, home),
{
    let home = paths::home_dir();
    transcripts_root_under(agent, &home)
}

/// Whether the file with the given path is a transcript, by its extension.
pub open spec fn transcript_path(path: Seq<char>) -> bool {
    paths::extension_of(path) == Some("jsonl"@)
}

/// Whether the file with the given path is a transcript.
pub fn is_transcript(path: &str) -> (r: bool)
    ensures
        r == transcript_path(path@),
{
    match paths::extension(path) {
        Some(ext) => same(ext.as_str(), "jsonl"),
        None => false,
    }
}

/// The record on a line of a transcript: none where the line could not be read, is
/// blank, is not JSON, or holds nothing to search for.
pub open spec fn line_event(line: Option<Seq<char>>, path: Seq<char>, index: u64) -> Option<
    EventView,
> {
    match line {
        Some(s) => if text::is_blank(s) {
            None
        } else {
            match json::json_read(s) {
                Some(t) => parse::event_of(t, path, index),
                None => None,
            }
        },
        None => None,
    }
}

/// The records of a transcript, in order. Every line counts in their places, those
/// without a record too.
pub open spec fn file_events(lines: Seq<Option<Seq<char>>>, path: Seq<char>) -> Seq<EventView>
    decreases lines.len(),
{
    if lines.len() == 0 {
        seq![]
    } else {
        let before = file_events(lines.drop_last(), path);
        match line_event(lines.last(), path, (lines.len() - 1) as u64) {
            Some(e) => before.push(e),
            None => before,
        }
    }
}

/// A text that may be missing.
pub open spec fn line_view(line: Option<&str>) -> Option<Seq<char>> {
    match line {
        Some(s) => Some(s@),
        None => None,
    }
}

/// The record on a line of a transcript, with the number of lines before it.
pub fn index_line(line: Option<&str>, path: &str, index: u64) -> (r: Option<IndexableEvent>)
    ensures
        parse::event_view(r) == line_event(line_view(line), path@, index),
        r matches Some(e) ==> (e.timestamp matches Some(t) ==> t.valid()),
{
    match line {
        Some(s) => if blank(s) {
            None
        } else {
            match parse_line(s, path, index) {
                Ok(e) => e,
                Err(_) => None,
            }
        },
        None => None,
    }
}

/// A record with its project, or with none where the name of the directory that tells
/// the project is not text.
pub fn in_named_project(ev: IndexableEvent, named: bool) -> (r: IndexableEvent)
    ensures
        r@ == (EventView {
            project: if named {
                ev.project@
            } else {
                seq![]
            },
            ..ev@
        }),
{
    let mut out = ev;
    if !named {
        out.project = String::new();
        assert(out.project@ =~= seq![]);
    }
    out
}

/// The records of a transcript, in order. A line is missing where it could not be
/// read.
pub fn index_file(lines: &Vec<Option<String>>, path: &str) -> (r: Vec<IndexableEvent>)
    ensures
        r@.map_values(|e: IndexableEvent| e@) == file_events(
            lines@.map_values(|s: Option<String>| text::view_of(s)),
            path@,
        ),
        forall|i: int|
            0 <= i < r@.len() ==> ((#[trigger] r@[i]).timestamp matches Some(t) ==> t.valid()),
{
    let mut out: Vec<IndexableEvent> = Vec::new();
    let mut i: usize = 0;
    let ghost all = lines@.map_values(|s: Option<String>| text::view_of(s));
    assert(out@.map_values(|e: IndexableEvent| e@) =~= seq![]);
    assert(all.take(0) =~= seq![]);
    while i < lines.len()
        invariant
            i <= lines.len(),
            all == lines@.map_values(|s: Option<String>| text::view_of(s)),
            out@.map_values(|e: IndexableEvent| e@) == file_events(all.take(i as int), path@),
            forall|k: int|
                0 <= k < out@.len() ==> ((#[trigger] out@[k]).timestamp matches Some(t)
                    ==> t.valid()),
        decreases lines.len() - i,
    {
        proof {
            assert(all.take(i + 1).drop_last() =~= all.take(i as int));
            assert(all.take(i + 1).last() == text::view_of(lines@[i as int]));
        }
        let ghost before = out@;
        let line: Option<&str> = match &lines[i] {
            Some(s) => Some(s.as_str()),
            None => None,
        };
        match index_line(line, path, i as u64) {
            Some(e) => {
                let ghost shown = e@;
                out.push(e);
                assert(out@.map_values(|e: IndexableEvent| e@) =~= before.map_values(
                    |e: IndexableEvent| e@,
                ).push(shown));
            },
            None => {},
        }
        i += 1;
    }
    assert(all.take(i as int) =~= all);
    out
}

/// The transcripts among what a walk came upon, in its order. Each entry has its
/// path and whether it is a file.
pub fn bootstrap_files(entries: &Vec<(String, bool)>) -> (r: Vec<String>)
    ensures
        text::views(r@) == lists::kept(
            entries@.map_values(|e: (String, bool)| (e.0@, e.1)),
            |e: (Seq<char>, bool)| e.1 && transcript_path(e.0),
        ).map_values(|e: (Seq<char>, bool)| e.0),
{
    let mut out: Vec<String> = Vec::new();
    let mut i: usize = 0;
    let ghost all = entries@.map_values(|e: (String, bool)| (e.0@, e.1));
    let ghost keep = |e: (Seq<char>, bool)| e.1 && transcript_path(e.0);
    let ghost name = |e: (Seq<char>, bool)| e.0;
    proof {
        assert(all.take(0) =~= seq![]);
        assert(lists::kept(all.take(0), keep) =~= seq![]);
        assert(text::views(out@) =~= lists::kept(all.take(0), keep).map_values(name));
    }
    while i < entries.len()
        invariant
            i <= entries.len(),
            all == entries@.map_values(|e: (String, bool)| (e.0@, e.1)),
            keep == (|e: (Seq<char>, bool)| e.1 && transcript_path(e.0)),
            name == (|e: (Seq<char>, bool)| e.0),
            text::views(out@) == lists::kept(all.take(i as int), keep).map_values(name),
        decreases entries.len() - i,
    {
        let (path, is_file) = &entries[i];
        let ghost before = out@;
        proof {
            assert(all.take(i + 1) =~= all.take(i as int).push((path@, *is_file)));
            all.take(i as int).lemma_filter_push((path@, *is_file), keep);
        }
        if *is_file && is_transcript(path.as_str()) {
            out.push(path.clone());
            assert(text::views(out@) =~= text::views(before).push(path@));
            assert(lists::kept(all.take(i + 1), keep).map_values(name) =~= lists::kept(
                all.take(i as int),
                keep,
            ).map_values(name).push(path@));
        }
        i += 1;
    }
    assert(all.take(i as int) =~= all);
    out
}

/// How many records the files of a walk had, where each could be opened.
pub open spec fn counted(outcomes: Seq<Option<usize>>) -> nat
    decreases outcomes.len(),
{
    if outcomes.len() == 0 {
        0
    } else {
        counted(outcomes.drop_last()) + (match outcomes.last() {
            Some(n) => n as nat,
            None => 0,
        })
    }
}

/// Fewer files have no more records.
proof fn lemma_counted(outcomes: Seq<Option<usize>>, n: int)
    requires
        0 <= n <= outcomes.len(),
    ensures
        counted(outcomes.take(n)) <= counted(outcomes),
    decreases outcomes.len() - n,
{
    if n < outcomes.len() {
        lemma_counted(outcomes, n + 1);
        assert(outcomes.take(n + 1).drop_last() =~= outcomes.take(n));
    } else {
        assert(outcomes.take(n) =~= outcomes);
    }
}

/// What a bootstrap comes to, given how many records each transcript had: the number
/// of the files and that of their records. There is no result, and nothing is to be
/// committed, where a file could not be opened.
pub fn bootstrap_totals(outcomes: &Vec<Option<usize>>) -> (r: Option<(usize, usize)>)
    requires
        counted(outcomes@) <= usize::MAX,
    ensures
        match r {
            Some(t) => (forall|i: int| 0 <= i < outcomes@.len() ==> #[trigger] outcomes@[i] is Some)
                && t.0 == outcomes@.len() && t.1 == counted(outcomes@),
            None => exists|i: int| 0 <= i < outcomes@.len() && #[trigger] outcomes@[i] is None,
        },
{
    let mut events: usize = 0;
    let mut i: usize = 0;
    assert(outcomes@.take(0) =~= seq![]);
    while i < outcomes.len()
        invariant
            i <= outcomes@.len(),
            counted(outcomes@) <= usize::MAX,
            events == counted(outcomes@.take(i as int)),
            forall|k: int| 0 <= k < i ==> #[trigger] outcomes@[k] is Some,
        decreases outcomes.len() - i,
    {
        proof {
            assert(outcomes@.take(i + 1).drop_last() =~= outcomes@.take(i as int));
            assert(outcomes@.take(i + 1).last() == outcomes@[i as int]);
            lemma_counted(outcomes@, i + 1);
        }
        match outcomes[i] {
            Some(n) => {
                events = events + n;
            },
            None => {
                return None;
            },
        }
        i += 1;
    }
    assert(outcomes@.take(i as int) =~= outcomes@);
    Some((outcomes.len(), events))
}

/// An index of transcripts after a file was indexed again: what it held from that
/// file is gone, and the file's records are at the end.
pub open spec fn reindexed(
    index: Seq<EventView>,
    path: Seq<char>,
    lines: Seq<Option<Seq<char>>>,
) -> Seq<EventView> {
    without_file(index, path) + file_events(lines, path)
}

/// An index of transcripts without what it holds from a file.
pub open spec fn without_file(index: Seq<EventView>, path: Seq<char>) -> Seq<EventView> {
    index.filter(|e: EventView| e.file_path != path)
}

/// What an index of transcripts holds from a file.
pub open spec fn of_file(index: Seq<EventView>, path: Seq<char>) -> Seq<EventView> {
    index.filter(|e: EventView| e.file_path == path)
}

/// All records of a file name the file.
proof fn lemma_file_events_path(lines: Seq<Option<Seq<char>>>, path: Seq<char>)
    ensures
        forall|i: int|
            0 <= i < file_events(lines, path).len() ==> (#[trigger] file_events(
                lines,
                path,
            )[i]).file_path == path,
    decreases lines.len(),
{
    if lines.len() > 0 {
        lemma_file_events_path(lines.drop_last(), path);
    }
}

/// Indexing a file again replaces what was indexed from it: after that the index
/// holds of the file exactly its records, however often it was indexed before.
pub proof fn law_reindex_replaces(
    index: Seq<EventView>,
    path: Seq<char>,
    lines: Seq<Option<Seq<char>>>,
)
    ensures
        of_file(reindexed(index, path, lines), path) == file_events(lines, path),
{
    let is = |e: EventView| e.file_path == path;
    let isnt = |e: EventView| e.file_path != path;
    let new = file_events(lines, path);
    lemma_file_events_path(lines, path);
    Seq::filter_distributes_over_add(without_file(index, path), new, is);
    lists::lemma_filter_all(new, is);
    lists::lemma_filter_filter(index, isnt, is);
    lists::lemma_filter_none(index, |e: EventView| isnt(e) && is(e));
    assert(Seq::<EventView>::empty() + new =~= new);
}

/// Indexing a file again leaves what was indexed from other files as it was.
pub proof fn law_reindex_keeps_other_files(
    index: Seq<EventView>,
    path: Seq<char>,
    lines: Seq<Option<Seq<char>>>,
)
    ensures
        without_file(reindexed(index, path, lines), path) == without_file(index, path),
{
    let isnt = |e: EventView| e.file_path != path;
    let new = file_events(lines, path);
    lemma_file_events_path(lines, path);
    Seq::filter_distributes_over_add(without_file(index, path), new, isnt);
    lists::lemma_filter_none(new, isnt);
    lists::lemma_filter_filter(index, isnt, isnt);
    assert((|e: EventView| isnt(e) && isnt(e)) =~= isnt);
    assert(without_file(index, path) + Seq::<EventView>::empty() =~= without_file(index, path));
}

/// Indexing a file again is idempotent: to index it twice is to index it once, and
/// of two versions of it the later counts.
pub proof fn law_reindex_is_idempotent(
    index: Seq<EventView>,
    path: Seq<char>,
    earlier: Seq<Option<Seq<char>>>,
    later: Seq<Option<Seq<char>>>,
)
    ensures
        reindexed(reindexed(index, path, earlier), path, later) == reindexed(index, path, later),
{
    law_reindex_keeps_other_files(index, path, earlier);
}

/// An index of transcripts after several files were indexed, one after the other.
pub open spec fn bootstrapped(
    index: Seq<EventView>,
    files: Seq<(Seq<char>, Seq<Option<Seq<char>>>)>,
) -> Seq<EventView>
    decreases files.len(),
{
    if files.len() == 0 {
        index
    } else {
        reindexed(bootstrapped(index, files.drop_last()), files.last().0, files.last().1)
    }
}

/// How many records several files have.
pub open spec fn events_in(files: Seq<(Seq<char>, Seq<Option<Seq<char>>>)>) -> nat
    decreases files.len(),
{
    if files.len() == 0 {
        0
    } else {
        events_in(files.drop_last()) + file_events(files.last().1, files.last().0).len()
    }
}

/// What an index holds of one file stays the same when another is indexed.
proof fn lemma_of_other_file(
    index: Seq<EventView>,
    path: Seq<char>,
    lines: Seq<Option<Seq<char>>>,
    other: Seq<char>,
)
    requires
        other != path,
    ensures
        of_file(reindexed(index, path, lines), other) == of_file(index, other),
{
    let is = |e: EventView| e.file_path == other;
    let isnt = |e: EventView| e.file_path != path;
    let new = file_events(lines, path);
    lemma_file_events_path(lines, path);
    Seq::filter_distributes_over_add(without_file(index, path), new, is);
    lists::lemma_filter_none(new, is);
    lists::lemma_filter_filter(index, isnt, is);
    assert((|e: EventView| isnt(e) && is(e)) =~= is);
    assert(of_file(index, other) + Seq::<EventView>::empty() =~= of_file(index, other));
}

/// A bootstrap indexes every file: after it the index holds of each of the files
/// exactly its records, if no file comes twice, and of every other file what it held.
pub proof fn law_bootstrap_indexes_every_file(
    index: Seq<EventView>,
    files: Seq<(Seq<char>, Seq<Option<Seq<char>>>)>,
    path: Seq<char>,
)
    requires
        forall|i: int, k: int|
            0 <= i < k < files.len() ==> (#[trigger] files[i]).0 != (#[trigger] files[k]).0,
    ensures
        forall|i: int|
            0 <= i < files.len() && (#[trigger] files[i]).0 == path ==> of_file(
                bootstrapped(index, files),
                path,
            ) == file_events(files[i].1, path),
        (forall|i: int| 0 <= i < files.len() ==> (#[trigger] files[i]).0 != path) ==> of_file(
            bootstrapped(index, files),
            path,
        ) == of_file(index, path),
    decreases files.len(),
{
    if files.len() > 0 {
        let rest = files.drop_last();
        let before = bootstrapped(index, rest);
        let (p, lines) = files.last();
        assert(files[files.len() - 1] == files.last());
        assert forall|i: int, k: int| 0 <= i < k < rest.len() implies (#[trigger] rest[i]).0 != (
        #[trigger] rest[k]).0 by {
            assert(rest[i] == files[i] && rest[k] == files[k]);
        }
        law_bootstrap_indexes_every_file(index, rest, path);
        if p == path {
            law_reindex_replaces(before, p, lines);
        } else {
            lemma_of_other_file(before, p, lines, path);
        }
        assert forall|i: int| 0 <= i < files.len() && (#[trigger] files[i]).0 == path implies of_file(
            bootstrapped(index, files),
            path,
        ) == file_events(files[i].1, path) by {
            if i < files.len() - 1 {
                assert(rest[i] == files[i]);
            }
        }
        if forall|i: int| 0 <= i < files.len() ==> (#[trigger] files[i]).0 != path {
            assert forall|i: int| 0 <= i < rest.len() implies (#[trigger] rest[i]).0 != path by {
                assert(rest[i] == files[i]);
            }
        }
    }
}

/// The records that a bootstrap counts are those that it indexes: of an index that
/// was empty they are all there is, if no file comes twice.
pub proof fn law_bootstrap_counts_records(files: Seq<(Seq<char>, Seq<Option<Seq<char>>>)>)
    requires
        forall|i: int, k: int|
            0 <= i < k < files.len() ==> (#[trigger] files[i]).0 != (#[trigger] files[k]).0,
    ensures
        bootstrapped(seq![], files).len() == events_in(files),
    decreases files.len(),
{
    if files.len() > 0 {
        let rest = files.drop_last();
        let before = bootstrapped(seq![], rest);
        let (p, lines) = files.last();
        assert(files[files.len() - 1] == files.last());
        assert forall|i: int, k: int| 0 <= i < k < rest.len() implies (#[trigger] rest[i]).0 != (
        #[trigger] rest[k]).0 by {
            assert(rest[i] == files[i] && rest[k] == files[k]);
        }
        law_bootstrap_counts_records(rest);
        assert forall|i: int| 0 <= i < rest.len() implies (#[trigger] rest[i]).0 != p by {
            assert(rest[i] == files[i]);
        }
        lemma_only_from(rest, p);
        let isnt = |e: EventView| e.file_path != p;
        lists::lemma_filter_all(before, isnt);
    }
}

/// A bootstrap of an empty index leaves nothing in it from a file that is not among
/// its files.
proof fn lemma_only_from(files: Seq<(Seq<char>, Seq<Option<Seq<char>>>)>, path: Seq<char>)
    requires
        forall|i: int| 0 <= i < files.len() ==> (#[trigger] files[i]).0 != path,
    ensures
        forall|i: int|
            0 <= i < bootstrapped(seq![], files).len() ==> (#[trigger] bootstrapped(
                seq![],
                files,
            )[i]).file_path != path,
    decreases files.len(),
{
    if files.len() > 0 {
        let rest = files.drop_last();
        let before = bootstrapped(seq![], rest);
        let all = bootstrapped(seq![], files);
        let (p, lines) = files.last();
        assert(files[files.len() - 1] == files.last());
        assert forall|i: int| 0 <= i < rest.len() implies (#[trigger] rest[i]).0 != path by {
            assert(rest[i] == files[i]);
        }
        lemma_only_from(rest, path);
        lemma_file_events_path(lines, p);
        let kept = without_file(before, p);
        let new = file_events(lines, p);
        lists::lemma_filter_from(before, |e: EventView| e.file_path != p);
        assert forall|i: int| 0 <= i < all.len() implies (#[trigger] all[i]).file_path != path by {
            if i < kept.len() {
                assert(all[i] == kept[i]);
                assert(before.contains(kept[i]));
            } else {
                assert(all[i] == new[i - kept.len()]);
            }
        }
    }
}

/// What became of a file.
#[derive(Clone, Copy, Debug, PartialEq, Eq, Structural)]
pub enum ChangeKind {
    Create,
    Modify,
    Remove,
    Other,
}

/// Whether a change can make the index out of date.
pub fn is_interesting(kind: ChangeKind) -> (r: bool)
    ensures
        r == (kind != ChangeKind::Other),
{
    match kind {
        ChangeKind::Create => true,
        ChangeKind::Modify => true,
        ChangeKind::Remove => true,
        ChangeKind::Other => false,
    }
}

/// What the watcher had to say within one debounce period.
pub enum WatchEvent {
    /// Something happened to the files with these paths.
    Changed(ChangeKind, Vec<String>),
    /// The watcher failed to tell what happened.
    Failed,
    /// Nothing happened.
    Quiet,
    /// The watcher is gone.
    Disconnected,
}

/// What to do after an event.
#[derive(Clone, Copy, Debug, PartialEq, Eq, Structural)]
pub enum Next {
    /// Wait for the next event.
    Wait,
    /// Index the files that are due.
    Drain,
    /// Give up.
    Stop,
}

/// What to do with a file that is due.
#[derive(Clone, Copy, Debug, PartialEq, Eq, Structural)]
pub enum FileAction {
    /// It is there: index it again.
    Reindex,
    /// It is gone: delete what was indexed from it.
    Forget,
}

/// What to do with a file that is due, if it exists and if it does not.
pub fn file_action(present: bool) -> (r: FileAction)
    ensures
        r == if present {
            FileAction::Reindex
        } else {
            FileAction::Forget
        },
{
    if present {
        FileAction::Reindex
    } else {
        FileAction::Forget
    }
}

/// The files that changed and are not indexed again yet, each with the time of its
/// last change in nanoseconds.
pub struct Debouncer {
    pending: Vec<(String, u64)>,
}

/// Whether a file last changed at `at` has been left alone long enough.
pub open spec fn is_due(at: u64, now: u64) -> bool {
    now >= at + DEBOUNCE_NANOS
}

/// The pending files after those with the given paths changed.
pub open spec fn touched(pending: Map<Seq<char>, u64>, list: Seq<Seq<char>>, now: u64) -> Map<
    Seq<char>,
    u64,
>
    decreases list.len(),
{
    if list.len() == 0 {
        pending
    } else {
        let before = touched(pending, list.drop_last(), now);
        if transcript_path(list.last()) {
            before.insert(list.last(), now)
        } else {
            before
        }
    }
}

/// The pending files that are not due yet.
pub open spec fn not_due(pending: Map<Seq<char>, u64>, now: u64) -> Map<Seq<char>, u64> {
    pending.restrict(Set::new(|p: Seq<char>| pending.contains_key(p) && !is_due(pending[p], now)))
}

/// The map that a list of paths and times stands for.
spec fn entries(s: Seq<(String, u64)>) -> Map<Seq<char>, u64> {
    Map::new(
        |p: Seq<char>| exists|i: int| 0 <= i < s.len() && (#[trigger] s[i]).0@ == p,
        |p: Seq<char>| s[choose|i: int| 0 <= i < s.len() && (#[trigger] s[i]).0@ == p].1,
    )
}

/// Whether no path is in a list twice.
spec fn unique(s: Seq<(String, u64)>) -> bool {
    forall|i: int, k: int| 0 <= i < k < s.len() ==> (#[trigger] s[i]).0@ != (#[trigger] s[k]).0@
}

/// A path in a list without repetitions has the time that stands beside it.
proof fn lemma_entry(s: Seq<(String, u64)>, i: int)
    requires
        unique(s),
        0 <= i < s.len(),
    ensures
        entries(s).contains_key(s[i].0@),
        entries(s)[s[i].0@] == s[i].1,
{
    let p = s[i].0@;
    let k = choose|k: int| 0 <= k < s.len() && (#[trigger] s[k]).0@ == p;
    assert(s[i].0@ == p);
    if k < i {
        assert(s[k].0@ != s[i].0@);
    } else if i < k {
        assert(s[i].0@ != s[k].0@);
    }
}

impl View for Debouncer {
    type V = Map<Seq<char>, u64>;

    closed spec fn view(&self) -> Map<Seq<char>, u64> {
        entries(self.pending@)
    }
}

impl Debouncer {
    /// Whether no file is pending twice.
    pub closed spec fn wf(self) -> bool {
        unique(self.pending@)
    }

    /// Without pending files.
    pub fn new() -> (r: Debouncer)
        ensures
            r.wf(),
            r@ == Map::<Seq<char>, u64>::empty(),
    {
        let r = Debouncer { pending: Vec::new() };
        assert(r@ =~= Map::empty());
        r
    }

    /// Notes that a file changed. Only its last change counts.
    fn touch(&mut self, path: &str, now: u64)
        requires
            old(self).wf(),
        ensures
            final(self).wf(),
            final(self)@ == old(self)@.insert(path@, now),
    {
        let ghost before = self.pending@;
        let mut i: usize = 0;
        while i < self.pending.len()
            invariant
                i <= self.pending@.len(),
                self.pending@ == before,
                before == old(self).pending@,
                unique(before),
                forall|k: int| 0 <= k < i ==> (#[trigger] before[k]).0@ != path@,
            decreases self.pending.len() - i,
        {
            if same(self.pending[i].0.as_str(), path) {
                let key = path.to_string();
                self.pending.set(i, (key, now));
                proof {
                    let after = self.pending@;
                    assert(after =~= before.update(i as int, (key, now)));
                    assert(unique(after));
                    lemma_entry(after, i as int);
                    assert forall|p: Seq<char>| entries(after).contains_key(p) == entries(
                        before,
                    ).insert(path@, now).contains_key(p) by {
                        if entries(after).contains_key(p) {
                            let k = choose|k: int| 0 <= k < after.len() && (#[trigger] after[k]).0@ == p;
                            assert(before[k].0@ == p);
                        }
                        if entries(before).contains_key(p) {
                            let k = choose|k: int| 0 <= k < before.len() && (#[trigger] before[k]).0@
                                == p;
                            assert(after[k].0@ == p);
                        }
                    }
                    assert forall|p: Seq<char>| #[trigger]
                        entries(after).contains_key(p) implies entries(after)[p] == entries(
                        before,
                    ).insert(path@, now)[p] by {
                        let k = choose|k: int| 0 <= k < after.len() && (#[trigger] after[k]).0@ == p;
                        lemma_entry(after, k);
                        if k != i {
                            assert(before[k] == after[k]);
                            lemma_entry(before, k);
                        }
                    }
                    assert(entries(after) =~= entries(before).insert(path@, now));
                }
                return ;
            }
            i += 1;
        }
        let key = path.to_string();
        self.pending.push((key, now));
        proof {
            let after = self.pending@;
            assert(after =~= before.push((key, now)));
            assert(unique(after));
            let n = before.len() as int;
            lemma_entry(after, n);
            assert forall|p: Seq<char>| entries(after).contains_key(p) == entries(before).insert(
                path@,
                now,
            ).contains_key(p) by {
                if entries(after).contains_key(p) {
                    let k = choose|k: int| 0 <= k < after.len() && (#[trigger] after[k]).0@ == p;
                    if k < n {
                        assert(before[k].0@ == p);
                    }
                }
                if entries(before).contains_key(p) {
                    let k = choose|k: int| 0 <= k < before.len() && (#[trigger] before[k]).0@ == p;
                    assert(after[k].0@ == p);
                }
            }
            assert forall|p: Seq<char>| #[trigger] entries(after).contains_key(p) implies entries(
                after,
            )[p] == entries(before).insert(path@, now)[p] by {
                let k = choose|k: int| 0 <= k < after.len() && (#[trigger] after[k]).0@ == p;
                lemma_entry(after, k);
                if k < n {
                    assert(before[k] == after[k]);
                    lemma_entry(before, k);
                }
            }
            assert(entries(after) =~= entries(before).insert(path@, now));
        }
    }

    /// Takes an event in: the transcripts among the files that changed are pending
    /// from now on. Nothing is drained after an event that cannot make the index
    /// out of date.
    pub fn on_event(&mut self, event: &WatchEvent, now: u64) -> (r: Next)
        requires
            old(self).wf(),
        ensures
            final(self).wf(),
            match *event {
                WatchEvent::Changed(kind, list) => if kind != ChangeKind::Other {
                    r == Next::Drain && final(self)@ == touched(
                        old(self)@,
                        text::views(list@),
                        now,
                    )
                } else {
                    r == Next::Wait && final(self)@ == old(self)@
                },
                WatchEvent::Failed => r == Next::Drain && final(self)@ == old(self)@,
                WatchEvent::Quiet => r == Next::Drain && final(self)@ == old(self)@,
                WatchEvent::Disconnected => r == Next::Stop && final(self)@ == old(self)@,
            },
    {
        match event {
            WatchEvent::Changed(kind, list) => {
                if !is_interesting(*kind) {
                    return Next::Wait;
                }
                let ghost start = self@;
                let ghost all = text::views(list@);
                let mut i: usize = 0;
                assert(all.take(0) =~= seq![]);
                while i < list.len()
                    invariant
                        i <= list.len(),
                        self.wf(),
                        all == text::views(list@),
                        self@ == touched(start, all.take(i as int), now),
                    decreases list.len() - i,
                {
                    proof {
                        assert(all.take(i + 1).drop_last() =~= all.take(i as int));
                        assert(all.take(i + 1).last() == list@[i as int]@);
                    }
                    if is_transcript(list[i].as_str()) {
                        self.touch(list[i].as_str(), now);
                    }
                    i += 1;
                }
                assert(all.take(i as int) =~= all);
                Next::Drain
            },
            WatchEvent::Failed => Next::Drain,
            WatchEvent::Quiet => Next::Drain,
            WatchEvent::Disconnected => Next::Stop,
        }
    }

    /// Takes out the files that are due.
    pub fn drain(&mut self, now: u64) -> (r: Vec<String>)
        requires
            old(self).wf(),
        ensures
            final(self).wf(),
            final(self)@ == not_due(old(self)@, now),
            text::views(r@).no_duplicates(),
            forall|p: Seq<char>| #[trigger]
                text::views(r@).contains(p) <==> old(self)@.contains_key(p) && is_due(
                    old(self)@[p],
                    now,
                ),
    {
        let ghost all = self.pending@;
        let mut due: Vec<String> = Vec::new();
        let mut rest: Vec<(String, u64)> = Vec::new();
        let mut i: usize = 0;
        let ghost mut due_at: Seq<int> = seq![];
        let ghost mut rest_at: Seq<int> = seq![];
        while i < self.pending.len()
            invariant
                i <= self.pending@.len(),
                self.pending@ == all,
                unique(all),
                due_at.len() == due@.len(),
                rest_at.len() == rest@.len(),
                forall|k: int|
                    0 <= k < due_at.len() ==> 0 <= #[trigger] due_at[k] < i && due@[k]@
                        == all[due_at[k]].0@ && is_due(all[due_at[k]].1, now),
                forall|k: int|
                    0 <= k < rest_at.len() ==> 0 <= #[trigger] rest_at[k] < i && rest@[k].0@
                        == all[rest_at[k]].0@ && rest@[k].1 == all[rest_at[k]].1 && !is_due(
                        all[rest_at[k]].1,
                        now,
                    ),
                forall|a: int, b: int| 0 <= a < b < due_at.len() ==> due_at[a] < due_at[b],
                forall|a: int, b: int| 0 <= a < b < rest_at.len() ==> rest_at[a] < rest_at[b],
                forall|k: int|
                    0 <= k < i ==> if is_due((#[trigger] all[k]).1, now) {
                        due_at.contains(k)
                    } else {
                        rest_at.contains(k)
                    },
            decreases self.pending.len() - i,
        {
            let (path, at) = &self.pending[i];
            let ghost due_before = due_at;
            let ghost rest_before = rest_at;
            if now >= *at && now - *at >= DEBOUNCE_NANOS {
                due.push(path.clone());
                proof {
                    due_at = due_at.push(i as int);
                    assert(due_at[due_before.len() as int] == i);
                }
            } else {
                rest.push((path.clone(), *at));
                proof {
                    rest_at = rest_at.push(i as int);
                    assert(rest_at[rest_before.len() as int] == i);
                }
            }
            proof {
                assert forall|k: int| 0 <= k < i + 1 implies if is_due((#[trigger] all[k]).1, now) {
                    due_at.contains(k)
                } else {
                    rest_at.contains(k)
                } by {
                    if k < i {
                        if is_due(all[k].1, now) {
                            let j = choose|j: int| 0 <= j < due_before.len() && due_before[j] == k;
                            assert(due_at[j] == k);
                        } else {
                            let j = choose|j: int| 0 <= j < rest_before.len() && rest_before[j] == k;
                            assert(rest_at[j] == k);
                        }
                    }
                }
            }
            i += 1;
        }
        self.pending = rest;
        proof {
            let kept = self.pending@;
            assert(unique(kept)) by {
                assert forall|a: int, b: int| 0 <= a < b < kept.len() implies (
                #[trigger] kept[a]).0@ != (#[trigger] kept[b]).0@ by {
                    assert(rest_at[a] < rest_at[b]);
                    assert(all[rest_at[a]].0@ != all[rest_at[b]].0@);
                }
            }
            assert forall|p: Seq<char>| #[trigger]
                entries(kept).contains_key(p) == not_due(entries(all), now).contains_key(p) by {
                if entries(kept).contains_key(p) {
                    let k = choose|k: int| 0 <= k < kept.len() && (#[trigger] kept[k]).0@ == p;
                    lemma_entry(all, rest_at[k]);
                }
                if not_due(entries(all), now).contains_key(p) {
                    let k = choose|k: int| 0 <= k < all.len() && (#[trigger] all[k]).0@ == p;
                    lemma_entry(all, k);
                    let j = choose|j: int| 0 <= j < rest_at.len() && rest_at[j] == k;
                    assert(kept[j].0@ == p);
                }
            }
            assert forall|p: Seq<char>| #[trigger] entries(kept).contains_key(p) implies entries(
                kept,
            )[p] == not_due(entries(all), now)[p] by {
                let k = choose|k: int| 0 <= k < kept.len() && (#[trigger] kept[k]).0@ == p;
                lemma_entry(kept, k);
                lemma_entry(all, rest_at[k]);
            }
            assert(self@ =~= not_due(entries(all), now));
            let shown = text::views(due@);
            assert forall|a: int, b: int| 0 <= a < shown.len() && 0 <= b < shown.len() && a
                != b implies shown[a] != shown[b] by {
                if a < b {
                    assert(due_at[a] < due_at[b]);
                    assert(all[due_at[a]].0@ != all[due_at[b]].0@);
                } else {
                    assert(due_at[b] < due_at[a]);
                    assert(all[due_at[b]].0@ != all[due_at[a]].0@);
                }
            }
            assert forall|p: Seq<char>| #[trigger] shown.contains(p) <==> entries(
                all,
            ).contains_key(p) && is_due(entries(all)[p], now) by {
                if shown.contains(p) {
                    let k = choose|k: int| 0 <= k < shown.len() && shown[k] == p;
                    lemma_entry(all, due_at[k]);
                }
                if entries(all).contains_key(p) && is_due(entries(all)[p], now) {
                    let k = choose|k: int| 0 <= k < all.len() && (#[trigger] all[k]).0@ == p;
                    lemma_entry(all, k);
                    let j = choose|j: int| 0 <= j < due_at.len() && due_at[j] == k;
                    assert(shown[j] == p);
                }
            }
        }
        due
    }
}

/// A series of changes to a transcript counts as one, the last: however often the
/// file changed, it becomes due once, a debounce period after its last change.
pub proof fn law_changes_coalesce(pending: Map<Seq<char>, u64>, p: Seq<char>, a: u64, b: u64)
    requires
        transcript_path(p),
    ensures
        touched(touched(pending, seq![p], a), seq![p], b) == touched(pending, seq![p], b),
        touched(pending, seq![p], b).contains_key(p),
        touched(pending, seq![p], b)[p] == b,
{
    let one = seq![p];
    assert(one.drop_last() =~= seq![]);
    reveal_with_fuel(touched, 2);
    assert(touched(touched(pending, one, a), one, b) =~= touched(pending, one, b));
}

/// A transcript that changed stays pending, with the time of that change, through
/// every drain until a debounce period has passed; then it is no longer pending.
pub proof fn law_pending_until_due(pending: Map<Seq<char>, u64>, p: Seq<char>, now: u64)
    requires
        pending.contains_key(p),
    ensures
        now < pending[p] + 750_000_000 ==> not_due(pending, now).contains_key(p) && not_due(
            pending,
            now,
        )[p] == pending[p],
        now >= pending[p] + 750_000_000 ==> !not_due(pending, now).contains_key(p),
{
}

/// Changes to other files, and files that are no transcripts, leave a pending
/// transcript as it is.
pub proof fn law_other_changes_leave_pending(
    pending: Map<Seq<char>, u64>,
    list: Seq<Seq<char>>,
    p: Seq<char>,
    now: u64,
)
    requires
        !list.contains(p) || !transcript_path(p),
    ensures
        touched(pending, list, now).contains_key(p) == pending.contains_key(p),
        pending.contains_key(p) ==> touched(pending, list, now)[p] == pending[p],
    decreases list.len(),
{
    if list.len() > 0 {
        if list.drop_last().contains(p) {
            let k = choose|k: int| 0 <= k < list.drop_last().len() && list.drop_last()[k] == p;
            assert(list[k] == p);
        }
        assert(list[list.len() - 1] == list.last());
        law_other_changes_leave_pending(pending, list.drop_last(), p, now);
    }
}

/// A file is a transcript by its extension alone, wherever it is and whatever it is called:
/// `jsonl`, in lowercase.
pub proof fn law_transcripts_are_told_by_extension(dir: Seq<char>, stem: Seq<char>, ext: Seq<char>)
    requires
        stem.len() > 0,
        !stem.contains('/'),
        !ext.contains('/'),
        !ext.contains('.'),
        paths::is_name(stem + seq!['.'] + ext),
    ensures
        transcript_path(dir + seq!['/'] + (stem + seq!['.'] + ext)) <==> ext == "jsonl"@,
        transcript_path(stem + seq!['.'] + ext) <==> ext == "jsonl"@,
{
    paths::law_extension(dir, stem, ext);
}

/// A file without an extension is no transcript.
pub proof fn law_files_without_extension_are_no_transcripts(dir: Seq<char>, name: Seq<char>)
    requires
        paths::is_name(name),
        !name.drop_first().contains('.'),
    ensures
        !transcript_path(dir + seq!['/'] + name),
        !transcript_path(name),
{
    paths::law_no_extension(dir, name);
}

/// A line that is JSON with something to search for has its record, with the number of
/// lines before it as its place, whatever those lines are; a line that could not be read,
/// is blank or is not JSON has none and counts all the same.
pub proof fn law_every_line_counts(
    lines: Seq<Option<Seq<char>>>,
    line: Option<Seq<char>>,
    path: Seq<char>,
)
    requires
        lines.len() <= u64::MAX,
    ensures
        file_events(lines.push(line), path) == file_events(lines, path) + (match line {
            Some(s) => if text::is_blank(s) || json::json_read(s) is None {
                Seq::empty()
            } else {
                match parse::event_of(json::json_read(s)->0, path, lines.len() as u64) {
                    Some(e) => seq![e],
                    None => Seq::empty(),
                }
            },
            None => Seq::empty(),
        }),
        file_events(Seq::empty(), path).len() == 0,
{
    let all = lines.push(line);
    assert(all.drop_last() =~= lines);
    let before = file_events(lines, path);
    assert(before + Seq::empty() =~= before);
    if let Some(e) = line_event(line, path, lines.len() as u64) {
        assert(before.push(e) =~= before + seq![e]);
    }
}

/// Every transcript among the files that changed is pending from the time of the change.
pub proof fn law_changed_transcripts_are_pending(
    pending: Map<Seq<char>, u64>,
    list: Seq<Seq<char>>,
    i: int,
    now: u64,
)
    requires
        0 <= i < list.len(),
        transcript_path(list[i]),
    ensures
        touched(pending, list, now).contains_key(list[i]),
        touched(pending, list, now)[list[i]] == now,
    decreases list.len(),
{
    if i < list.len() - 1 {
        assert(list.drop_last()[i] == list[i]);
        law_changed_transcripts_are_pending(pending, list.drop_last(), i, now);
    }
}

/// What a bootstrap counts is the records of every file that could be opened, added up:
/// two lists of files have the records of both.
pub proof fn law_counts_add_up(a: Seq<Option<usize>>, b: Seq<Option<usize>>, n: usize)
    ensures
        counted(a + b) == counted(a) + counted(b),
        counted(seq![Some(n)]) == n,
        counted(seq![None]) == 0,
        counted(Seq::empty()) == 0,
    decreases b.len(),
{
    reveal_with_fuel(counted, 2);
    assert(seq![Some(n)].drop_last() =~= seq![]);
    assert(seq![None::<usize>].drop_last() =~= seq![]);
    if b.len() > 0 {
        assert((a + b).drop_last() =~= a + b.drop_last());
        law_counts_add_up(a, b.drop_last(), n);
    } else {
        assert(a + b =~= a);
    }
}

/// Where an agent keeps its transcripts is in `projects` in the directory with its name,
/// a dot in front, in the home directory.
pub proof fn law_transcripts_are_in_projects(agent: Seq<char>, home: Seq<char>)
    ensures
        transcripts_dir(agent, home) == paths::join_path(
            paths::join_path(home, seq!['.'] + agent),
            "projects"@,
        ),
        paths::file_name_of(transcripts_dir(agent, home)) == Some("projects"@),
{
    reveal_strlit("projects");
    assert("projects"@.len() == 8);
    assert(!"projects"@.contains('/'));
    assert(seq!['.'].len() == 1 && seq!['.', '.'].len() == 2);
    paths::law_joined_path_is_inside(paths::join_path(home, seq!['.'] + agent), "projects"@);
}

} // verus!
