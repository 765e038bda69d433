//! What the command line shows and what it falls back on.

use vstd::prelude::*;
use crate::code::index::CodeHit;
use crate::index;
use crate::index::SearchHit;
use crate::lists;
use crate::paths;
use crate::snippet;
use crate::text;
use crate::text::{chars_of, string_of, trim};

verus! {

/// The digit for a number below ten.
pub open spec fn digit(n: nat) -> char {
    (n + '0' as nat) as char
}

/// A number in decimal.
pub open spec fn decimal(n: nat) -> Seq<char>
    decreases n,
{
    if n < 10 {
        seq![digit(n)]
    } else {
        decimal(n / 10).push(digit(n % 10))
    }
}

/// A number in decimal, at least two characters wide, with a space in front.
pub open spec fn padded(n: nat) -> Seq<char> {
    if n < 10 {
        seq![' '] + decimal(n)
    } else {
        decimal(n)
    }
}

/// A number in decimal.
pub fn decimal_of(n: usize) -> (r: String)
    ensures
        r@ == decimal(n as nat),
    decreases n,
{
    if n < 10 {
        let mut out = String::new();
        out.push((('0' as u8) + (n as u8)) as char);
        assert(out@ =~= decimal(n as nat));
        out
    } else {
        let mut out = decimal_of(n / 10);
        out.push((('0' as u8) + ((n % 10) as u8)) as char);
        out
    }
}

/// A number in decimal, at least two characters wide.
fn padded_of(n: usize) -> (r: String)
    ensures
        r@ == padded(n as nat),
{
    if n < 10 {
        let mut out = String::new();
        out.push(' ');
        out.append(decimal_of(n).as_str());
        assert(out@ =~= padded(n as nat));
        out
    } else {
        decimal_of(n)
    }
}

/// The lines that show a result of a search for transcripts.
pub open spec fn hit_text(number: nat, h: SearchHit) -> Seq<Seq<char>> {
    seq![
        padded(number) + ". ["@ + (match h.timestamp {
            Some(t) => t@,
            None => "—"@,
        }) + "] "@ + h.project@ + " "@ + h.session_id@ + " ("@ + h.event_role@ + ")"@,
        "    "@ + h.snippet@,
        "    "@ + h.file_path@,
    ]
}

/// The lines that show a result of a search for code.
pub open spec fn code_hit_text(number: nat, h: CodeHit) -> Seq<Seq<char>> {
    seq![
        padded(number) + ". ["@ + h.repo@ + "/"@ + h.branch@ + "] "@ + h.file_path@ + " ("@
            + h.language@ + ")"@,
        "    "@ + h.snippet@,
    ]
}

/// An indented line.
fn indented(s: &str) -> (r: String)
    ensures
        r@ == "    "@ + s@,
{
    let mut out = "    ".to_string();
    out.append(s);
    out
}

/// The lines that show a result of a search for transcripts, with its number.
pub fn hit_lines(number: usize, h: &SearchHit) -> (r: Vec<String>)
    ensures
        text::views(r@) == hit_text(number as nat, *h),
{
    let mut first = padded_of(number);
    first.append(". [");
    match &h.timestamp {
        Some(t) => first.append(t.as_str()),
        None => first.append("—"),
    }
    first.append("] ");
    first.append(h.project.as_str());
    first.append(" ");
    first.append(h.session_id.as_str());
    first.append(" (");
    first.append(h.event_role.as_str());
    first.append(")");
    let mut out: Vec<String> = Vec::new();
    out.push(first);
    out.push(indented(h.snippet.as_str()));
    out.push(indented(h.file_path.as_str()));
    assert(text::views(out@) =~= hit_text(number as nat, *h));
    out
}

/// The lines that show a result of a search for code, with its number.
pub fn code_hit_lines(number: usize, h: &CodeHit) -> (r: Vec<String>)
    ensures
        text::views(r@) == code_hit_text(number as nat, *h),
{
    let mut first = padded_of(number);
    first.append(". [");
    first.append(h.repo.as_str());
    first.append("/");
    first.append(h.branch.as_str());
    first.append("] ");
    first.append(h.file_path.as_str());
    first.append(" (");
    first.append(h.language.as_str());
    first.append(")");
    let mut out: Vec<String> = Vec::new();
    out.push(first);
    out.push(indented(h.snippet.as_str()));
    assert(text::views(out@) =~= code_hit_text(number as nat, *h));
    out
}

/// Whether numbers are in ascending order.
pub open spec fn ascending(s: Seq<u128>) -> bool {
    forall|i: int, k: int| 0 <= i <= k < s.len() ==> s[i] <= s[k]
}

/// Numbers in ascending order.
pub fn sorted(times: &Vec<u128>) -> (r: Vec<u128>)
    ensures
        ascending(r@),
        r@.to_multiset() == times@.to_multiset(),
        r@.len() == times@.len(),
{
    let mut out: Vec<u128> = Vec::new();
    let mut i: usize = 0;
    assert(out@ =~= times@.take(0));
    while i < times.len()
        invariant
            i <= times@.len(),
            ascending(out@),
            out@.to_multiset() == times@.take(i as int).to_multiset(),
        decreases times.len() - i,
    {
        let t: u128 = times[i];
        let mut at: usize = out.len();
        while at > 0 && out[at - 1] > t
            invariant
                at <= out@.len(),
                ascending(out@),
                forall|k: int| at <= k < out@.len() ==> out@[k] > t,
            decreases at,
        {
            at -= 1;
        }
        let ghost before = out@;
        out.insert(at, t);
        proof {
            assert(out@ =~= before.insert(at as int, t));
            vstd::seq_lib::to_multiset_insert(before, at as int, t);
            vstd::seq_lib::to_multiset_build(times@.take(i as int), t);
            assert(times@.take(i + 1) =~= times@.take(i as int).push(t));
            assert forall|a: int, b: int| 0 <= a <= b < out@.len() implies out@[a] <= out@[b] by {
                if a < at && b == at {
                    assert(before[a] <= before[at - 1]);
                }
            }
        }
        i += 1;
    }
    proof {
        assert(times@.take(i as int) =~= times@);
        vstd::seq_lib::to_multiset_len(out@);
        vstd::seq_lib::to_multiset_len(times@);
    }
    out
}

/// What a series of measurements comes to.
#[derive(Clone, Copy, Debug, PartialEq, Eq, Structural)]
pub struct Bench {
    pub min: u128,
    pub median: u128,
    pub p95: u128,
    pub max: u128,
}

/// Whether this is what measurements come to: the first, the middle and the last of
/// them in ascending order, and the one at the given place.
pub open spec fn sums_up(b: Bench, times: Seq<u128>, p95_at: int, order: Seq<u128>) -> bool {
    &&& ascending(order)
    &&& order.to_multiset() == times.to_multiset()
    &&& order.len() == times.len()
    &&& b.min == order[0]
    &&& b.median == order[times.len() as int / 2]
    &&& b.p95 == order[p95_at]
    &&& b.max == order[times.len() - 1]
}

/// What a series of measurements comes to, with the place of the 95th percentile
/// among them.
pub fn bench_summary(times: &Vec<u128>, p95_at: usize) -> (r: Bench)
    requires
        p95_at < times.len(),
    ensures
        exists|order: Seq<u128>| #[trigger] sums_up(r, times@, p95_at as int, order),
{
    let order = sorted(times);
    let n: usize = order.len();
    let r = Bench { min: order[0], median: order[n / 2], p95: order[p95_at], max: order[n - 1] };
    assert(sums_up(r, times@, p95_at as int, order@));
    r
}

/// No measurement is outside of the smallest and the largest, and the median is
/// between them.
pub proof fn law_bench_is_ordered(b: Bench, times: Seq<u128>, p95_at: int, order: Seq<u128>)
    requires
        sums_up(b, times, p95_at, order),
        0 <= p95_at < times.len(),
    ensures
        b.min <= b.median <= b.max,
        b.min <= b.p95 <= b.max,
        forall|i: int| 0 <= i < times.len() ==> b.min <= #[trigger] times[i] <= b.max,
{
    assert forall|i: int| 0 <= i < times.len() implies b.min <= #[trigger] times[i] <= b.max by {
        vstd::seq_lib::to_multiset_contains(times, times[i]);
        vstd::seq_lib::to_multiset_contains(order, times[i]);
        assert(times.contains(times[i]));
        let k = choose|k: int| 0 <= k < order.len() && order[k] == times[i];
        assert(order[0] <= order[k] && order[k] <= order[order.len() - 1]);
    }
}

/// The label of a repository that was given none: the name of its directory.
pub fn default_label(repo: &str) -> (r: String)
    ensures
        r@ == match paths::file_name_of(repo@) {
            Some(name) => name,
            None => "repo"@,
        },
{
    match paths::file_name(repo) {
        Some(name) => name,
        None => "repo".to_string(),
    }
}

/// What `git` answered, unless it failed.
pub fn git_answer(success: bool, output: &str) -> (r: Option<String>)
    ensures
        text::view_of(r) == if success {
            Some(text::trimmed(output@))
        } else {
            None
        },
{
    if success {
        Some(trim(output))
    } else {
        None
    }
}

/// A text, or `unknown` where it is missing.
pub fn or_unknown(s: Option<String>) -> (r: String)
    ensures
        r@ == match s {
            Some(t) => t@,
            None => "unknown"@,
        },
{
    match s {
        Some(t) => t,
        None => "unknown".to_string(),
    }
}

/// What a repository is indexed as.
#[derive(Debug, Clone)]
pub struct IndexRun {
    pub label: String,
    pub branch: String,
    pub commit_sha: String,
}

/// A text that was given, or else another.
pub open spec fn given_or(given: Option<String>, other: Seq<char>) -> Seq<char> {
    match given {
        Some(t) => t@,
        None => other,
    }
}

/// What a repository is indexed as: under the label and the branch that were given,
/// or else the name of its directory and the branch that `git` tells; a branch or a
/// commit that is not told is unknown.
pub fn index_run(
    repo: &str,
    label: Option<String>,
    branch: Option<String>,
    git_branch: Option<String>,
    git_commit: Option<String>,
) -> (r: IndexRun)
    ensures
        r.label@ == given_or(
            label,
            match paths::file_name_of(repo@) {
                Some(name) => name,
                None => "repo"@,
            },
        ),
        r.branch@ == given_or(branch, given_or(git_branch, "unknown"@)),
        r.commit_sha@ == given_or(git_commit, "unknown"@),
{
    let label = match label {
        Some(l) => l,
        None => default_label(repo),
    };
    let branch = match branch {
        Some(b) => b,
        None => or_unknown(git_branch),
    };
    IndexRun { label, branch, commit_sha: or_unknown(git_commit) }
}

/// The front of a commit's name: eight bytes of it, in whole characters.
pub fn short_sha(sha: &str) -> (r: String)
    ensures
        r@ == sha@.take(snippet::fitting(sha@, 8) as int),
        vstd::utf8::is_ascii_chars(sha@) && sha@.len() >= 8 ==> r@ == sha@.take(8),
        vstd::utf8::is_ascii_chars(sha@) && sha@.len() < 8 ==> r@ == sha@,
{
    let v = chars_of(sha);
    proof {
        if vstd::utf8::is_ascii_chars(sha@) {
            snippet::law_fitting_in_ascii(sha@, 8);
            assert(sha@.take(sha@.len() as int) =~= sha@);
        }
        text::lemma_byte_len(sha@);
        snippet::lemma_fitting(sha@, 8);
    }
    let _size: usize = sha.as_bytes().len();
    let n: usize = snippet::round_down_char(&v, 8);
    assert(v@.subrange(0, n as int) =~= sha@.take(n as int));
    string_of(&v, 0, n)
}

/// The name of the first directory among the entries of a directory.
pub open spec fn first_dir(entries: Seq<(String, bool)>) -> Option<Seq<char>>
    decreases entries.len(),
{
    if entries.len() == 0 {
        None
    } else if entries[0].1 {
        Some(entries[0].0@)
    } else {
        first_dir(entries.drop_first())
    }
}

/// The directory of the repository to search where none is named: the first in the
/// directory of all code indexes, whose entries come with whether they are directories.
/// The entries are missing where that directory is.
pub fn pick_first_code_repo(dir: &str, entries: Option<&Vec<(String, bool)>>) -> (r: Result<
    String,
    String,
>)
    ensures
        match entries {
            None => r matches Err(m) && m@ == "no code indexes found at "@ + dir@
                + ". run `sonar code index --repo <path>` first."@,
            Some(v) => match first_dir(v@) {
                Some(name) => r matches Ok(n) && n@ == name,
                None => r matches Err(m) && m@ == "no code indexes found at "@ + dir@,
            },
        },
{
    let mut message = "no code indexes found at ".to_string();
    message.append(dir);
    match entries {
        None => {
            message.append(". run `sonar code index --repo <path>` first.");
            Err(message)
        },
        Some(v) => {
            let mut i: usize = 0;
            assert(v@.skip(0) =~= v@);
            while i < v.len()
                invariant
                    i <= v.len(),
                    entries == Some(v),
                    first_dir(v@) == first_dir(v@.skip(i as int)),
                decreases v.len() - i,
            {
                let (name, is_dir) = &v[i];
                assert(v@.skip(i as int)[0] == v@[i as int]);
                assert(v@.skip(i as int).drop_first() =~= v@.skip(i + 1));
                if *is_dir {
                    return Ok(name.clone());
                }
                i += 1;
            }
            Err(message)
        },
    }
}

/// A number that is written in decimal reads back as the number, and has no zero in front
/// unless it is one; with a space in front where it has one digit, it has two characters
/// or more.
pub proof fn law_decimal_reads_back(n: nat)
    ensures
        index::all_digits(decimal(n)),
        index::digits_value(decimal(n)) == n,
        n > 0 ==> decimal(n)[0] != '0',
        n == 0 ==> decimal(n) == seq!['0'],
        decimal(n).len() > 0,
        padded(n).len() >= 2,
        n >= 10 ==> padded(n) == decimal(n),
        n < 10 ==> padded(n) == seq![' '] + decimal(n),
    decreases n,
{
    let s = decimal(n);
    reveal_with_fuel(index::digits_value, 2);
    if n < 10 {
        assert(s.drop_last() =~= seq![]);
        assert(s[0] == digit(n));
        if n == 0 {
            assert(s =~= seq!['0']);
        }
    } else {
        law_decimal_reads_back(n / 10);
        let front = decimal(n / 10);
        assert(s.drop_last() =~= front);
        assert(s.last() == digit(n % 10));
        assert forall|i: int| 0 <= i < s.len() implies text::is_digit(#[trigger] s[i]) by {
            if i < front.len() {
                assert(text::is_digit(front[i]));
            }
        }
        assert(s[0] == front[0]);
    }
}

/// The lines of a result show everything that it has: its number, then in brackets its
/// instant or a dash, its project, its session and in parentheses its role, all on the
/// first line and nothing else; under them, indented, its snippet and its file.
pub proof fn law_hit_lines_show_the_result(number: nat, h: SearchHit)
    ensures
        ({
            let lines = hit_text(number, h);
            let at = match h.timestamp {
                Some(t) => t@,
                None => seq!['—'],
            };
            &&& lines.len() == 3
            &&& padded(number).is_prefix_of(lines[0])
            &&& text::occurs(lines[0], seq!['['] + at + seq![']'])
            &&& text::occurs(lines[0], h.project@)
            &&& text::occurs(lines[0], h.session_id@)
            &&& text::occurs(lines[0], seq!['('] + h.event_role@ + seq![')'])
            &&& lines[0].len() == padded(number).len() + at.len() + h.project@.len()
                + h.session_id@.len() + h.event_role@.len() + 9
            &&& lines[1] == seq![' ', ' ', ' ', ' '] + h.snippet@
            &&& lines[2] == seq![' ', ' ', ' ', ' '] + h.file_path@
        }),
{
    reveal_strlit(". [");
    reveal_strlit("] ");
    reveal_strlit(" ");
    reveal_strlit(" (");
    reveal_strlit(")");
    reveal_strlit("    ");
    reveal_strlit("—");
    let at = match h.timestamp {
        Some(t) => t@,
        None => "—"@,
    };
    assert("—"@ =~= seq!['—']);
    assert("    "@ =~= seq![' ', ' ', ' ', ' ']);
    let (n, p, s, r) = (padded(number), h.project@, h.session_id@, h.event_role@);
    let front = n + ". ["@ + at + "] "@;
    lemma_tail(front + p, " "@, s, " ("@, r, ")"@);
    let line = hit_text(number, h)[0];
    let none = Seq::<char>::empty();
    text::law_occurs(line, p, front, " "@ + s + " ("@ + r + ")"@);
    text::law_occurs(line, s, front + p + " "@, " ("@ + r + ")"@);
    lemma_three(front + p + " "@ + s, " ("@, r, ")"@);
    lemma_bracketed(front + p + " "@ + s, " ("@, r, ")"@, none, '(', ')');
    lemma_none(line);
    let back = p + " "@ + s + " ("@ + r + ")"@;
    lemma_six(front, p, " "@, s, " ("@, r, ")"@);
    lemma_bracketed(n, ". ["@, at, "] "@, back, '[', ']');
    lemma_front(n, ". ["@, at, "] "@, back);
}

/// A text followed by nothing.
proof fn lemma_none(s: Seq<char>)
    ensures
        s + Seq::<char>::empty() == s,
{
    assert(s + Seq::<char>::empty() =~= s);
}

/// Texts that follow one another can be taken together.
proof fn lemma_three(q: Seq<char>, a: Seq<char>, b: Seq<char>, c: Seq<char>)
    ensures
        q + a + b + c == q + (a + b + c),
{
    assert(q + a + b + c =~= q + (a + b + c));
}

proof fn lemma_tail(
    q: Seq<char>,
    a: Seq<char>,
    b: Seq<char>,
    c: Seq<char>,
    d: Seq<char>,
    e: Seq<char>,
)
    ensures
        q + a + b + c + d + e == q + (a + b + c + d + e),
{
    lemma_three(q, a, b, c);
    lemma_three(q, a + b + c, d, e);
}

proof fn lemma_six(
    q: Seq<char>,
    a: Seq<char>,
    b: Seq<char>,
    c: Seq<char>,
    d: Seq<char>,
    e: Seq<char>,
    f: Seq<char>,
)
    ensures
        q + a + b + c + d + e + f == q + (a + b + c + d + e + f),
{
    lemma_tail(q, a, b, c, d, e);
    lemma_three(q, a + b + c + d + e, f, seq![]);
    lemma_none(q + (a + b + c + d + e) + f);
    lemma_none(a + b + c + d + e + f);
}

/// What stands between two texts stands there with the last character of the one and the
/// first of the other.
proof fn lemma_bracketed(
    n: Seq<char>,
    before: Seq<char>,
    part: Seq<char>,
    after: Seq<char>,
    rest: Seq<char>,
    x: char,
    y: char,
)
    requires
        before.len() > 0 && before.last() == x,
        after.len() > 0 && after[0] == y,
    ensures
        text::occurs(n + before + part + after + rest, seq![x] + part + seq![y]),
{
    let all = n + before + part + after + rest;
    let shown = seq![x] + part + seq![y];
    let at = n.len() + before.len() - 1;
    assert(all.subrange(at, at + shown.len()) =~= shown);
    assert(text::occurs_at(all, shown, at));
}

/// The first of several texts is in front.
proof fn lemma_front(
    n: Seq<char>,
    a: Seq<char>,
    b: Seq<char>,
    c: Seq<char>,
    d: Seq<char>,
)
    ensures
        n.is_prefix_of(n + a + b + c + d),
{
    let all = n + a + b + c + d;
    assert(all.subrange(0, n.len() as int) =~= n);
}

/// The lines of a result of a search for code show its number, then in brackets its
/// repository and branch, its file and in parentheses its language, all on the first line
/// and nothing else; under them, indented, its snippet.
pub proof fn law_code_hit_lines_show_the_result(number: nat, h: CodeHit)
    ensures
        ({
            let lines = code_hit_text(number, h);
            &&& lines.len() == 2
            &&& padded(number).is_prefix_of(lines[0])
            &&& text::occurs(lines[0], seq!['['] + h.repo@ + seq!['/'] + h.branch@ + seq![']'])
            &&& text::occurs(lines[0], h.file_path@)
            &&& text::occurs(lines[0], seq!['('] + h.language@ + seq![')'])
            &&& lines[0].len() == padded(number).len() + h.repo@.len() + h.branch@.len()
                + h.file_path@.len() + h.language@.len() + 9
            &&& lines[1] == seq![' ', ' ', ' ', ' '] + h.snippet@
        }),
{
    reveal_strlit(". [");
    reveal_strlit("/");
    reveal_strlit("] ");
    reveal_strlit(" (");
    reveal_strlit(")");
    reveal_strlit("    ");
    assert("    "@ =~= seq![' ', ' ', ' ', ' ']);
    let (n, p, b, f, l) = (padded(number), h.repo@, h.branch@, h.file_path@, h.language@);
    let none = Seq::<char>::empty();
    let line = code_hit_text(number, h)[0];
    let front = n + ". ["@ + p + "/"@ + b + "] "@;
    lemma_three(front + f, " ("@, l, ")"@);
    text::law_occurs(line, f, front, " ("@ + l + ")"@);
    lemma_bracketed(front + f, " ("@, l, ")"@, none, '(', ')');
    lemma_none(line);
    let back = f + " ("@ + l + ")"@;
    lemma_tail(front, f, " ("@, l, ")"@, none);
    lemma_none(front + f + " ("@ + l + ")"@);
    lemma_none(f + " ("@ + l + ")"@);
    lemma_three(n + ". ["@, p, "/"@, b);
    let place = p + "/"@ + b;
    lemma_bracketed(n, ". ["@, place, "] "@, back, '[', ']');
    lemma_front(n, ". ["@, place, "] "@, back);
    assert("/"@ =~= seq!['/']);
    assert(seq!['['] + place + seq![']'] =~= seq!['['] + p + seq!['/'] + b + seq![']']);
}

/// The median is in the middle of the measurements, and the 95th percentile at its place:
/// no more measurements than half, or than the place, are below it, and more than that
/// many are not above it. The smallest and the largest are measurements.
pub proof fn law_bench_is_in_its_place(b: Bench, times: Seq<u128>, p95_at: int, order: Seq<u128>)
    requires
        sums_up(b, times, p95_at, order),
        0 <= p95_at < times.len(),
    ensures
        times.filter(|t: u128| t < b.median).len() <= times.len() / 2,
        times.filter(|t: u128| t <= b.median).len() > times.len() / 2,
        times.filter(|t: u128| t < b.p95).len() <= p95_at,
        times.filter(|t: u128| t <= b.p95).len() > p95_at,
        times.contains(b.min),
        times.contains(b.max),
        times.contains(b.median),
        times.contains(b.p95),
{
    lemma_place(times, order, times.len() as int / 2);
    lemma_place(times, order, p95_at);
    lemma_place(times, order, 0);
    lemma_place(times, order, times.len() - 1);
}

/// What stands at a place of the numbers in order.
proof fn lemma_place(times: Seq<u128>, order: Seq<u128>, at: int)
    requires
        ascending(order),
        order.to_multiset() == times.to_multiset(),
        order.len() == times.len(),
        0 <= at < order.len(),
    ensures
        times.filter(|t: u128| t < order[at]).len() <= at,
        times.filter(|t: u128| t <= order[at]).len() > at,
        times.contains(order[at]),
{
    let x = order[at];
    let below = |t: u128| t < x;
    let upto = |t: u128| t <= x;
    lists::lemma_filter_len(order, times, below);
    lists::lemma_filter_len(order, times, upto);
    let (front, back) = (order.take(at), order.skip(at));
    assert(order =~= front + back);
    Seq::filter_distributes_over_add(front, back, below);
    lists::lemma_filter_none(back, below);
    lists::lemma_filter_shrinks(front, below);
    let (head, tail) = (order.take(at + 1), order.skip(at + 1));
    assert(order =~= head + tail);
    Seq::filter_distributes_over_add(head, tail, upto);
    lists::lemma_filter_all(head, upto);
    vstd::seq_lib::to_multiset_contains(order, x);
    vstd::seq_lib::to_multiset_contains(times, x);
    assert(order.contains(x));
}

/// The repository that is searched where none is named is the first directory among the
/// entries, whatever stands before and after it; where none of them is a directory, there
/// is none.
pub proof fn law_first_directory_is_taken(
    before: Seq<(String, bool)>,
    entry: (String, bool),
    after: Seq<(String, bool)>,
)
    requires
        forall|i: int| 0 <= i < before.len() ==> !(#[trigger] before[i]).1,
    ensures
        first_dir(before) is None,
        entry.1 ==> first_dir(before + seq![entry] + after) == Some(entry.0@),
    decreases before.len(),
{
    let all = before + seq![entry] + after;
    if before.len() > 0 {
        let rest = before.drop_first();
        assert(!before[0].1);
        assert forall|i: int| 0 <= i < rest.len() implies !(#[trigger] rest[i]).1 by {
            assert(rest[i] == before[i + 1]);
        }
        law_first_directory_is_taken(rest, entry, after);
        assert(all.drop_first() =~= rest + seq![entry] + after);
        assert(all[0] == before[0]);
    } else {
        assert(all[0] == entry);
    }
}

/// What was given is taken, and something else only where nothing was.
pub proof fn law_what_is_given_is_taken(s: String, other: Seq<char>)
    ensures
        given_or(Some(s), other) == s@,
        given_or(None, other) == other,
{
}

} // verus!
