//! Short excerpts of a text around the first place where it holds a word of a query.

use vstd::prelude::*;
use crate::text;
use crate::text::{chars_of, collapse, find, split_words, string_of, trim};

verus! {

/// The mark that stands for text left out.
pub const ELLIPSIS: char = '…';

/// The words of a query as they are looked for, in lowercase.
pub open spec fn needles(query: Seq<char>) -> Seq<Seq<char>> {
    text::words(query).map_values(|w: Seq<char>| text::lowercase(w))
}

/// Whether one of the needles stands in `hay` at position `at`.
pub open spec fn matches_at(hay: Seq<char>, needles: Seq<Seq<char>>, at: int) -> bool {
    exists|i: int|
        0 <= i < needles.len() && (#[trigger] needles[i]).len() > 0 && text::occurs_at(
            hay,
            needles[i],
            at,
        )
}

/// Whether `at` is the first position of `hay` where one of the needles stands.
pub open spec fn is_first_match(hay: Seq<char>, needles: Seq<Seq<char>>, at: int) -> bool {
    matches_at(hay, needles, at) && forall|k: int|
        0 <= k < at ==> !#[trigger] matches_at(hay, needles, k)
}

/// How many characters the lowercase forms of the characters of a text have.
pub open spec fn lowered_len(body: Seq<char>) -> nat
    decreases body.len(),
{
    if body.len() == 0 {
        0
    } else {
        lowered_len(body.drop_last()) + text::lowercase(seq![body.last()]).len()
    }
}

/// The character of a text whose lowercase form stands at a position of the lowercase
/// form of the text: the last one with no more lowered characters before it.
pub open spec fn source_index(body: Seq<char>, at: int) -> nat
    decreases body.len(),
{
    if body.len() <= 1 {
        0
    } else if lowered_len(body.drop_last()) <= at {
        (body.len() - 1) as nat
    } else {
        source_index(body.drop_last(), at)
    }
}

/// The character of a text to center on: the one at the first place where any of the
/// needles stands in its lowercase form `hay`, or the first where none does.
pub open spec fn center(body: Seq<char>, hay: Seq<char>, needles: Seq<Seq<char>>) -> nat {
    if exists|at: int| is_first_match(hay, needles, at) {
        source_index(body, choose|at: int| is_first_match(hay, needles, at))
    } else {
        0
    }
}

/// How many whole characters of a text lie in its first `bytes` bytes.
pub open spec fn fitting(text: Seq<char>, bytes: nat) -> nat
    decreases text.len(),
{
    if text.len() == 0 || text::byte_len(text) <= bytes {
        text.len()
    } else {
        fitting(text.drop_last(), bytes)
    }
}

/// The first character of the window of `max` bytes whose middle is at the
/// given byte offset.
pub open spec fn window_start(text: Seq<char>, middle: nat, max: nat) -> nat {
    fitting(text, left_edge(middle, max))
}

/// The character after the last of that window.
pub open spec fn window_end(text: Seq<char>, middle: nat, max: nat) -> nat {
    fitting(text, left_edge(middle, max) + max)
}

/// Half of `max` bytes before the middle, but not before the text.
pub open spec fn left_edge(middle: nat, max: nat) -> nat {
    if middle >= max / 2 {
        (middle - max / 2) as nat
    } else {
        0
    }
}

/// The window of a text around one of its characters, with an ellipsis on each side
/// where text was left out, on one line.
pub open spec fn excerpt(body: Seq<char>, index: nat, max: nat) -> Seq<char> {
    text::collapsed(raw_excerpt(body, index, max))
}

/// The same before its white space is collapsed.
pub open spec fn raw_excerpt(body: Seq<char>, index: nat, max: nat) -> Seq<char> {
    let middle = text::byte_len(body.take(index as int));
    let from = window_start(body, middle, max) as int;
    let to = window_end(body, middle, max) as int;
    (if from > 0 {
        seq![ELLIPSIS]
    } else {
        seq![]
    }) + text::trimmed(body.subrange(from, to)) + (if to < body.len() {
        seq![ELLIPSIS]
    } else {
        seq![]
    })
}

/// The character of a text that its snippet for a query is centered on.
pub open spec fn snippet_center(body: Seq<char>, query: Seq<char>) -> nat {
    center(body, text::lowercase(body), needles(query))
}

/// The snippet of a text for a query: an excerpt of about `max` bytes around the
/// first place where a word of the query stands in the text, whatever the case of
/// either.
pub open spec fn snippet(body: Seq<char>, query: Seq<char>, max: nat) -> Seq<char> {
    excerpt(body, snippet_center(body, query), max)
}

/// There is one first match at most.
proof fn lemma_first_unique(hay: Seq<char>, needles: Seq<Seq<char>>, a: int, b: int)
    requires
        is_first_match(hay, needles, a),
        is_first_match(hay, needles, b),
    ensures
        a == b,
{
    lemma_match_range(hay, needles, a);
    lemma_match_range(hay, needles, b);
    if a < b {
        assert(!matches_at(hay, needles, a));
    } else if b < a {
        assert(!matches_at(hay, needles, b));
    }
}

/// A match is in the text.
proof fn lemma_match_range(hay: Seq<char>, needles: Seq<Seq<char>>, at: int)
    requires
        matches_at(hay, needles, at),
    ensures
        0 <= at < hay.len(),
{
}

/// The character that a position of the lowercase form comes from is one of the
/// text.
proof fn lemma_source_index(body: Seq<char>, at: int)
    ensures
        body.len() > 0 ==> source_index(body, at) < body.len(),
        source_index(body, at) > 0 ==> lowered_len(body.take(source_index(body, at) as int)) <= at,
        source_index(body, at) + 1 < body.len() ==> lowered_len(
            body.take(source_index(body, at) as int + 1),
        ) > at,
    decreases body.len(),
{
    if body.len() > 1 {
        let n = source_index(body, at) as int;
        assert(body.take(body.len() - 1) =~= body.drop_last());
        if lowered_len(body.drop_last()) > at {
            lemma_source_index(body.drop_last(), at);
            assert(body.drop_last().take(n) =~= body.take(n));
            if n + 1 < body.len() - 1 {
                assert(body.drop_last().take(n + 1) =~= body.take(n + 1));
            } else {
                assert(body.take(n + 1) =~= body.drop_last());
            }
        }
    }
}

/// More characters have no fewer lowered characters.
proof fn lemma_lowered_len(body: Seq<char>, a: int, b: int)
    requires
        0 <= a <= b <= body.len(),
    ensures
        lowered_len(body.take(a)) <= lowered_len(body.take(b)),
    decreases b - a,
{
    if a < b {
        lemma_lowered_len(body, a, b - 1);
        assert(body.take(b).drop_last() =~= body.take(b - 1));
    }
}

/// The center of a text is one of its characters.
proof fn lemma_center(body: Seq<char>, hay: Seq<char>, needles: Seq<Seq<char>>)
    ensures
        center(body, hay, needles) <= body.len(),
        body.len() > 0 ==> center(body, hay, needles) < body.len(),
{
    if exists|at: int| is_first_match(hay, needles, at) {
        lemma_source_index(body, choose|at: int| is_first_match(hay, needles, at));
    }
}

/// The characters in the first bytes of a text, and the bytes that they take.
pub proof fn lemma_fitting(text: Seq<char>, bytes: nat)
    ensures
        fitting(text, bytes) <= text.len(),
        text::byte_len(text.take(fitting(text, bytes) as int)) <= bytes,
        fitting(text, bytes) < text.len() ==> text::byte_len(text.take(fitting(text, bytes) as int + 1)) > bytes,
    decreases text.len(),
{
    assert(text.take(text.len() as int) =~= text);
    if text.len() > 0 && text::byte_len(text) > bytes {
        let n = fitting(text.drop_last(), bytes) as int;
        lemma_fitting(text.drop_last(), bytes);
        assert(text.drop_last().take(n) =~= text.take(n));
        if n < text.len() - 1 {
            assert(text.drop_last().take(n + 1) =~= text.take(n + 1));
        } else {
            assert(text.take(n + 1) =~= text);
        }
    }
}

/// More bytes hold no fewer characters.
proof fn lemma_fitting_monotone(text: Seq<char>, less: nat, more: nat)
    requires
        less <= more,
    ensures
        fitting(text, less) <= fitting(text, more),
{
    lemma_fitting(text, less);
    lemma_fitting(text, more);
    let a = fitting(text, less) as int;
    let b = fitting(text, more) as int;
    if b < a {
        text::lemma_byte_len_take(text, b + 1, a);
    }
}

/// How many bytes a character takes.
fn width_of(c: char) -> (r: usize)
    ensures
        r == text::width(c),
{
    let n: u32 = c as u32;
    if n < 0x80 {
        1
    } else if n < 0x800 {
        2
    } else if n < 0x10000 {
        3
    } else {
        4
    }
}

/// How many whole characters of a text lie in its first `bytes` bytes.
pub(crate) fn round_down_char(text: &Vec<char>, bytes: usize) -> (r: usize)
    requires
        text::byte_len(text@) <= usize::MAX,
    ensures
        r == fitting(text@, bytes as nat),
{
    let mut used: usize = 0;
    let mut i: usize = 0;
    proof {
        lemma_fitting(text@, bytes as nat);
        assert(text@.take(0) =~= seq![]);
    }
    while i < text.len()
        invariant
            i <= text@.len(),
            text::byte_len(text@) <= usize::MAX,
            used == text::byte_len(text@.take(i as int)),
            used <= bytes,
            fitting(text@, bytes as nat) <= text@.len(),
            text::byte_len(text@.take(fitting(text@, bytes as nat) as int)) <= bytes,
            fitting(text@, bytes as nat) < text@.len() ==> text::byte_len(
                text@.take(fitting(text@, bytes as nat) as int + 1),
            ) > bytes,
        decreases text.len() - i,
    {
        let w: usize = width_of(text[i]);
        proof {
            assert(text@.take(i + 1).drop_last() =~= text@.take(i as int));
            text::lemma_byte_len_take(text@, i + 1, text@.len() as int);
            assert(text@.take(text@.len() as int) =~= text@);
        }
        if used + w > bytes {
            proof {
                let n = fitting(text@, bytes as nat) as int;
                if n < i {
                    text::lemma_byte_len_take(text@, n + 1, i as int);
                } else if n > i {
                    text::lemma_byte_len_take(text@, i + 1, n);
                }
            }
            return i;
        }
        used += w;
        i += 1;
    }
    proof {
        let n = fitting(text@, bytes as nat) as int;
        if n < i {
            text::lemma_byte_len_take(text@, n + 1, i as int);
        }
    }
    i
}

/// The first position of `hay` where one of the needles stands.
fn first_match(hay: &Vec<char>, list: &Vec<String>) -> (r: Option<usize>)
    ensures
        match r {
            Some(at) => is_first_match(hay@, text::views(list@), at as int),
            None => forall|at: int| !#[trigger] matches_at(hay@, text::views(list@), at),
        },
{
    let mut best: Option<usize> = None;
    let mut i: usize = 0;
    let ghost all = text::views(list@);
    while i < list.len()
        invariant
            i <= list.len(),
            all == text::views(list@),
            match best {
                Some(b) => is_first_match(hay@, all.take(i as int), b as int),
                None => forall|at: int| !#[trigger] matches_at(hay@, all.take(i as int), at),
            },
        decreases list.len() - i,
    {
        let needle = chars_of(list[i].as_str());
        let found: Option<usize> = if needle.len() > 0 {
            find(hay, &needle)
        } else {
            None
        };
        let ghost before = best;
        match found {
            Some(at) => {
                let closer: bool = match best {
                    Some(b) => at < b,
                    None => true,
                };
                if closer {
                    best = Some(at);
                }
            },
            None => {},
        }
        proof {
            let old_list = all.take(i as int);
            let new_list = all.take(i + 1);
            assert(new_list[i as int] == needle@);
            assert forall|at: int| #[trigger] matches_at(hay@, new_list, at) == (matches_at(
                hay@,
                old_list,
                at,
            ) || (needle@.len() > 0 && text::occurs_at(hay@, needle@, at))) by {
                if matches_at(hay@, new_list, at) {
                    let k = choose|k: int|
                        0 <= k < new_list.len() && (#[trigger] new_list[k]).len() > 0
                            && text::occurs_at(hay@, new_list[k], at);
                    if k < i {
                        assert(old_list[k] == new_list[k]);
                    }
                }
                if matches_at(hay@, old_list, at) {
                    let k = choose|k: int|
                        0 <= k < old_list.len() && (#[trigger] old_list[k]).len() > 0
                            && text::occurs_at(hay@, old_list[k], at);
                    assert(new_list[k] == old_list[k]);
                }
                if needle@.len() > 0 && text::occurs_at(hay@, needle@, at) {
                    assert(new_list[i as int].len() > 0);
                }
            }
            if let Some(b) = best {
                assert(matches_at(hay@, new_list, b as int));
            }
        }
        i += 1;
    }
    assert(all.take(i as int) =~= all);
    best
}

/// How many characters the lowercase form of a character has.
fn lowered_width(c: char) -> (r: usize)
    ensures
        r == text::lowercase(seq![c]).len(),
{
    let mut one = String::new();
    one.push(c);
    assert(one@ =~= seq![c]);
    chars_of(one.to_lowercase().as_str()).len()
}

/// The character of a text whose lowercase form stands at a position of the lowercase
/// form of the text.
fn source_of(body: &Vec<char>, at: usize) -> (r: usize)
    ensures
        r == source_index(body@, at as int),
{
    if body.len() == 0 {
        return 0;
    }
    let last: usize = body.len() - 1;
    let mut i: usize = 0;
    let mut before: u128 = 0;
    assert(body@.take(0) =~= seq![]);
    proof {
        lemma_source_index(body@, at as int);
    }
    let ghost want = source_index(body@, at as int) as int;
    while i < last
        invariant
            i <= last,
            last == body@.len() - 1,
            want == source_index(body@, at as int),
            want < body@.len(),
            want > 0 ==> lowered_len(body@.take(want)) <= at,
            want + 1 < body@.len() ==> lowered_len(body@.take(want + 1)) > at,
            before == lowered_len(body@.take(i as int)),
            i > 0 ==> before <= at,
            i == 0 ==> before == 0,
        decreases last - i,
    {
        let w: usize = lowered_width(body[i]);
        assert(body@.take(i + 1).drop_last() =~= body@.take(i as int));
        let next: u128 = before + w as u128;
        if next > at as u128 {
            proof {
                if want > i {
                    lemma_lowered_len(body@, i + 1, want);
                } else if want < i {
                    lemma_lowered_len(body@, want + 1, i as int);
                }
            }
            return i;
        }
        before = next;
        i += 1;
    }
    proof {
        if want < i {
            lemma_lowered_len(body@, want + 1, i as int);
        }
    }
    i
}

/// The character of a text to center on.
fn center_of(body: &Vec<char>, hay: &str, list: &Vec<String>) -> (r: usize)
    ensures
        r == center(body@, hay@, text::views(list@)),
{
    match first_match(&chars_of(hay), list) {
        Some(at) => {
            proof {
                let chosen = choose|k: int| is_first_match(hay@, text::views(list@), k);
                lemma_first_unique(hay@, text::views(list@), at as int, chosen);
            }
            source_of(body, at)
        },
        None => 0,
    }
}

/// How many bytes the first `at` characters of a text take.
fn offset_of(text: &Vec<char>, at: usize) -> (r: usize)
    requires
        at <= text.len(),
        text::byte_len(text@.take(at as int)) <= usize::MAX,
    ensures
        r == text::byte_len(text@.take(at as int)),
{
    let mut used: usize = 0;
    let mut i: usize = 0;
    assert(text@.take(0) =~= seq![]);
    while i < at
        invariant
            i <= at <= text@.len(),
            text::byte_len(text@.take(at as int)) <= usize::MAX,
            used == text::byte_len(text@.take(i as int)),
        decreases at - i,
    {
        proof {
            assert(text@.take(i + 1).drop_last() =~= text@.take(i as int));
            text::lemma_byte_len_take(text@, i + 1, at as int);
        }
        used += width_of(text[i]);
        i += 1;
    }
    used
}

/// An excerpt of about `max_chars` bytes of a text around one of its characters.
pub fn excerpt_at(body: &str, index: usize, max_chars: usize) -> (r: String)
    requires
        index <= body@.len(),
    ensures
        r@ == excerpt(body@, index as nat, max_chars as nat),
{
    let chars = chars_of(body);
    let size: usize = body.as_bytes().len();
    proof {
        text::lemma_byte_len(body@);
        assert(size == text::byte_len(body@));
        text::lemma_byte_len_take(body@, index as int, body@.len() as int);
        assert(body@.take(body@.len() as int) =~= body@);
    }
    let middle: usize = offset_of(&chars, index);
    let half: usize = max_chars / 2;
    let left: usize = if middle >= half {
        middle - half
    } else {
        0
    };
    let from: usize = round_down_char(&chars, left);
    proof {
        lemma_fitting(body@, (left + max_chars) as nat);
        lemma_fitting_monotone(body@, left as nat, (left + max_chars) as nat);
    }
    let to: usize = if max_chars > usize::MAX - left {
        chars.len()
    } else {
        round_down_char(&chars, left + max_chars)
    };
    let mut out = String::new();
    if from > 0 {
        out.push(ELLIPSIS);
    }
    assert(out@ =~= if from > 0 {
        seq![ELLIPSIS]
    } else {
        seq![]
    });
    let part = string_of(&chars, from, to);
    out.append(trim(part.as_str()).as_str());
    let ghost before = out@;
    if to < chars.len() {
        out.push(ELLIPSIS);
    }
    assert(out@ =~= before + if to < body@.len() {
        seq![ELLIPSIS]
    } else {
        seq![]
    });
    assert(out@ == raw_excerpt(body@, index as nat, max_chars as nat));
    collapse(out.as_str())
}

/// An excerpt of `body` around the first place where any of the needles stands in
/// `hay`, the lowercase form of the text.
pub fn snippet_from(body: &str, hay: &str, list: &Vec<String>, max_chars: usize) -> (r: String)
    ensures
        r@ == excerpt(body@, center(body@, hay@, text::views(list@)), max_chars as nat),
{
    proof {
        lemma_center(body@, hay@, text::views(list@));
    }
    let index: usize = center_of(&chars_of(body), hay, list);
    excerpt_at(body, index, max_chars)
}

/// A snippet of about `max_chars` bytes of a text, around the first place where a word
/// of the query stands in it.
pub fn make_snippet(text: &str, query: &str, max_chars: usize) -> (r: String)
    ensures
        r@ == snippet(text@, query@, max_chars as nat),
{
    let hay = text.to_lowercase();
    let plain = split_words(query);
    let mut list: Vec<String> = Vec::new();
    let mut i: usize = 0;
    while i < plain.len()
        invariant
            i <= plain.len(),
            text::views(plain@) == text::words(query@),
            list@.len() == i,
            forall|k: int| 0 <= k < i ==> (#[trigger] list@[k])@ == text::lowercase(text::words(query@)[k]),
        decreases plain.len() - i,
    {
        assert(plain@[i as int]@ == text::words(query@)[i as int]);
        list.push(plain[i].to_lowercase());
        i += 1;
    }
    assert(text::views(list@) =~= needles(query@));
    snippet_from(text, hay.as_str(), &list, max_chars)
}

/// A snippet is one line: its words have single spaces between them, and no
/// white space stands at either end.
pub proof fn law_snippet_is_one_line(body: Seq<char>, query: Seq<char>, max: nat)
    ensures
        text::one_line(snippet(body, query, max)),
{
    let raw = raw_excerpt(body, snippet_center(body, query), max);
    text::lemma_words_are_words(raw);
    text::lemma_joined_one_line(text::words(raw));
}

/// A snippet has at most `max` characters of the text and an ellipsis on each
/// side.
pub proof fn law_snippet_is_short(body: Seq<char>, query: Seq<char>, max: nat)
    ensures
        snippet(body, query, max).len() <= max + 2,
{
    let index = snippet_center(body, query);
    let middle = text::byte_len(body.take(index as int));
    let left = left_edge(middle, max);
    let from = window_start(body, middle, max) as int;
    let to = window_end(body, middle, max) as int;
    lemma_fitting(body, left);
    lemma_fitting(body, left + max);
    lemma_fitting_monotone(body, left, left + max);
    if from < to {
        text::lemma_byte_len_take(body, from + 1, to);
    }
    text::lemma_trimmed_len(body.subrange(from, to));
    text::lemma_collapsed_len(raw_excerpt(body, index, max));
}

/// A snippet's window is about `max` bytes of the text wide: no more than three bytes
/// more, and no more than three fewer unless the text ends in it.
pub proof fn law_window_is_about_max(body: Seq<char>, query: Seq<char>, max: nat)
    ensures
        ({
            let middle = text::byte_len(body.take(snippet_center(body, query) as int));
            let from = window_start(body, middle, max);
            let to = window_end(body, middle, max);
            let bytes = text::byte_len(body.take(to as int)) - text::byte_len(
                body.take(from as int),
            );
            &&& from <= to <= body.len()
            &&& bytes <= max + 3
            &&& to < body.len() ==> bytes + 3 >= max
        }),
{
    let middle = text::byte_len(body.take(snippet_center(body, query) as int));
    let left = left_edge(middle, max);
    lemma_fitting(body, left);
    lemma_fitting(body, left + max);
    lemma_fitting_monotone(body, left, left + max);
    let from = fitting(body, left) as int;
    let to = fitting(body, left + max) as int;
    if from < body.len() {
        assert(body.take(from + 1).drop_last() =~= body.take(from));
    }
    if to < body.len() {
        assert(body.take(to + 1).drop_last() =~= body.take(to));
    }
}

/// Where a word of the query occurs in a text, the snippet's window holds the
/// character where the first such word starts. The half of the window after its
/// middle has to be wide enough for each character of the text.
pub proof fn law_snippet_shows_a_match(body: Seq<char>, query: Seq<char>, max: nat)
    requires
        forall|i: int| 0 <= i < body.len() ==> text::width(#[trigger] body[i]) <= max - max / 2,
        exists|at: int| #[trigger] matches_at(text::lowercase(body), needles(query), at),
    ensures
        exists|at: int|
            #![trigger is_first_match(text::lowercase(body), needles(query), at)]
            is_first_match(text::lowercase(body), needles(query), at) && snippet_center(body, query)
                == source_index(body, at) && source_index(body, at) < body.len(),
        ({
            let index = snippet_center(body, query);
            let middle = text::byte_len(body.take(index as int));
            window_start(body, middle, max) <= index < window_end(body, middle, max)
        }),
{
    let hay = text::lowercase(body);
    let some = choose|at: int| #[trigger] matches_at(hay, needles(query), at);
    lemma_has_first(hay, needles(query), some);
    let at = choose|at: int| is_first_match(hay, needles(query), at);
    lemma_match_range(hay, needles(query), at);
    if body.len() == 0 {
        assert(vstd::utf8::is_ascii_chars(body));
        assert(hay.len() == 0);
    }
    lemma_source_index(body, at);
    assert(is_first_match(hay, needles(query), at));
    let index = snippet_center(body, query) as int;
    let middle = text::byte_len(body.take(index));
    let left = left_edge(middle, max);
    lemma_fitting(body, left);
    lemma_fitting(body, left + max);
    let from = fitting(body, left) as int;
    let to = fitting(body, left + max) as int;
    if index < from {
        text::lemma_byte_len_take(body, index, from);
    }
    if to <= index {
        text::lemma_byte_len_take(body, to + 1, index + 1);
        assert(body.take(index + 1).drop_last() =~= body.take(index));
        assert(text::width(body[index]) <= max - max / 2);
    }
}

/// A snippet is its window and nothing else: the characters of the text from the first
/// that is no more than half of `max` bytes before the middle up to `max` bytes on, on one
/// line, with an ellipsis on each side where text was left out. (Were the ellipsis white
/// space, it would not be seen.)
pub proof fn law_snippet_is_its_window(body: Seq<char>, query: Seq<char>, max: nat)
    ensures
        ({
            let middle = text::byte_len(body.take(snippet_center(body, query) as int));
            let from = window_start(body, middle, max) as int;
            let to = window_end(body, middle, max) as int;
            let left: int = if middle >= max / 2 {
                middle - max / 2
            } else {
                0
            };
            let shown = text::collapsed(body.subrange(from, to));
            &&& 0 <= from <= to <= body.len()
            &&& text::byte_len(body.take(from)) <= left
            &&& from < body.len() ==> text::byte_len(body.take(from + 1)) > left
            &&& text::byte_len(body.take(to)) <= left + max
            &&& to < body.len() ==> text::byte_len(body.take(to + 1)) > left + max
            &&& snippet(body, query, max) == if text::is_white('…') {
                shown
            } else {
                (if from > 0 {
                    seq!['…']
                } else {
                    seq![]
                }) + shown + (if to < body.len() {
                    seq!['…']
                } else {
                    seq![]
                })
            }
        }),
{
    let middle = text::byte_len(body.take(snippet_center(body, query) as int));
    let left = left_edge(middle, max);
    lemma_fitting(body, left);
    lemma_fitting(body, left + max);
    lemma_fitting_monotone(body, left, left + max);
    let from = window_start(body, middle, max) as int;
    let to = window_end(body, middle, max) as int;
    lemma_marked(body.subrange(from, to), from > 0, to < body.len());
}

/// What becomes of a text with marks on either side when it is collapsed.
proof fn lemma_marked(s: Seq<char>, front: bool, back: bool)
    ensures
        ({
            let mark = |on: bool|
                if on {
                    seq![ELLIPSIS]
                } else {
                    Seq::<char>::empty()
                };
            text::collapsed(mark(front) + text::trimmed(s) + mark(back)) == if text::is_white(
                ELLIPSIS,
            ) {
                text::collapsed(s)
            } else {
                mark(front) + text::collapsed(s) + mark(back)
            }
        }),
{
    let t = text::trimmed(s);
    text::law_trimmed(s);
    text::lemma_trimmed_words(s);
    assert(text::collapsed(t) == text::collapsed(s));
    let a = seq![ELLIPSIS] + t;
    text::lemma_collapsed_front(ELLIPSIS, t);
    text::lemma_collapsed_step(t, ELLIPSIS);
    text::lemma_collapsed_step(a, ELLIPSIS);
    assert(t + seq![ELLIPSIS] =~= t.push(ELLIPSIS));
    assert(a + seq![ELLIPSIS] =~= a.push(ELLIPSIS));
    assert(Seq::<char>::empty() + t =~= t);
    assert(t + Seq::<char>::empty() =~= t);
    assert(a + Seq::<char>::empty() =~= a);
    if t.len() > 0 {
        assert(a.last() == t.last());
    } else {
        assert(t =~= Seq::empty());
        assert(a.last() == ELLIPSIS);
        assert(text::collapsed(t) =~= Seq::empty());
    }
    let c = text::collapsed(s);
    assert(Seq::<char>::empty() + c =~= c);
    assert(c + Seq::<char>::empty() =~= c);
    assert(c.push(ELLIPSIS) =~= c + seq![ELLIPSIS]);
    assert((seq![ELLIPSIS] + c).push(ELLIPSIS) =~= seq![ELLIPSIS] + c + seq![ELLIPSIS]);
    assert(seq![ELLIPSIS] + c + Seq::<char>::empty() =~= seq![ELLIPSIS] + c);
    assert(Seq::<char>::empty() + c + seq![ELLIPSIS] =~= c + seq![ELLIPSIS]);
}

/// What stands in a snippet's window without white space in it stands in the snippet.
pub proof fn law_snippet_holds_its_window(
    body: Seq<char>,
    query: Seq<char>,
    max: nat,
    a: int,
    b: int,
)
    requires
        0 <= a < b <= body.len(),
        forall|i: int| a <= i < b ==> !text::is_white(#[trigger] body[i]),
        ({
            let middle = text::byte_len(body.take(snippet_center(body, query) as int));
            window_start(body, middle, max) <= a && b <= window_end(body, middle, max)
        }),
    ensures
        text::occurs(snippet(body, query, max), body.subrange(a, b)),
{
    let middle = text::byte_len(body.take(snippet_center(body, query) as int));
    let from = window_start(body, middle, max) as int;
    let to = window_end(body, middle, max) as int;
    law_snippet_is_its_window(body, query, max);
    let window = body.subrange(from, to);
    assert forall|i: int| a - from <= i < b - from implies !text::is_white(#[trigger] window[i]) by {
        assert(window[i] == body[from + i]);
    }
    text::lemma_collapsed_holds(window, a - from, b - from);
    let part = body.subrange(a, b);
    assert(window.subrange(a - from, b - from) =~= part);
    let shown = text::collapsed(window);
    let s = snippet(body, query, max);
    let at = choose|at: int| text::occurs_at(shown, part, at);
    if text::is_white('…') {
        assert(text::occurs_at(s, part, at));
    } else {
        let shift: int = if from > 0 {
            1
        } else {
            0
        };
        assert(s.subrange(shift + at, shift + at + part.len()) =~= shown.subrange(
            at,
            at + part.len(),
        ));
        assert(text::occurs_at(s, part, shift + at));
    }
}

/// Where a word of the query stands in a text, whatever the case of either, the first such
/// place is in the snippet itself, as the text has it. The text's characters have to be
/// lowered one for one, and the word has to fit the half of the window after its middle.
pub proof fn law_match_is_in_snippet(
    body: Seq<char>,
    query: Seq<char>,
    max: nat,
    word: int,
    at: int,
)
    requires
        forall|i: int|
            0 <= i < body.len() ==> text::lowercase(seq![#[trigger] body[i]]).len() == 1,
        text::lowercase(body).len() == body.len(),
        0 <= word < text::words(query).len(),
        ({
            let hay = text::lowercase(body);
            let size = text::lowercase(text::words(query)[word]).len();
            &&& size > 0
            &&& text::occurs_at(hay, text::lowercase(text::words(query)[word]), at)
            &&& forall|k: int, w: int|
                0 <= k < at && 0 <= w < text::words(query).len() && text::lowercase(
                    text::words(query)[w],
                ).len() > 0 ==> !#[trigger] text::occurs_at(
                    hay,
                    text::lowercase(text::words(query)[w]),
                    k,
                )
            &&& forall|i: int| at <= i < at + size ==> !text::is_white(#[trigger] body[i])
            &&& text::byte_len(body.subrange(at, at + size)) <= max - max / 2
        }),
    ensures
        text::occurs(
            snippet(body, query, max),
            body.subrange(at, at + text::lowercase(text::words(query)[word]).len()),
        ),
{
    let hay = text::lowercase(body);
    let list = needles(query);
    let size = text::lowercase(text::words(query)[word]).len() as int;
    assert(list[word] == text::lowercase(text::words(query)[word]));
    assert(matches_at(hay, list, at));
    assert forall|k: int| 0 <= k < at implies !#[trigger] matches_at(hay, list, k) by {
        if matches_at(hay, list, k) {
            let w = choose|w: int|
                0 <= w < list.len() && (#[trigger] list[w]).len() > 0 && text::occurs_at(
                    hay,
                    list[w],
                    k,
                );
            assert(list[w] == text::lowercase(text::words(query)[w]));
        }
    }
    assert(is_first_match(hay, list, at));
    law_center_is_the_match(body, query, at);
    let middle = text::byte_len(body.take(at));
    lemma_bytes_between(body, at, at + size);
    let left = left_edge(middle, max);
    lemma_fitting(body, left);
    lemma_fitting(body, left + max);
    let from = fitting(body, left) as int;
    let to = fitting(body, left + max) as int;
    if at < from {
        text::lemma_byte_len_take(body, at, from);
    }
    if to < at + size {
        text::lemma_byte_len_take(body, to + 1, at + size);
    }
    law_snippet_holds_its_window(body, query, max, at, at + size);
}

/// The bytes of a part of a text are those up to its end without those before it.
proof fn lemma_bytes_between(s: Seq<char>, a: int, b: int)
    requires
        0 <= a <= b <= s.len(),
    ensures
        text::byte_len(s.take(b)) == text::byte_len(s.take(a)) + text::byte_len(s.subrange(a, b)),
    decreases b - a,
{
    if a < b {
        lemma_bytes_between(s, a, b - 1);
        assert(s.take(b).drop_last() =~= s.take(b - 1));
        assert(s.subrange(a, b).drop_last() =~= s.subrange(a, b - 1));
    } else {
        assert(s.subrange(a, b) =~= seq![]);
    }
}

/// In ASCII a snippet always shows the first place where a word of the query stands, as
/// long as the word has no more than half of `max` characters.
pub proof fn law_match_is_in_ascii_snippet(
    body: Seq<char>,
    query: Seq<char>,
    max: nat,
    word: int,
    at: int,
)
    requires
        vstd::utf8::is_ascii_chars(body),
        vstd::utf8::is_ascii_chars(query),
        0 <= word < text::words(query).len(),
        2 * text::words(query)[word].len() <= max,
        text::occurs_at(
            text::ascii_lowercase(body),
            text::ascii_lowercase(text::words(query)[word]),
            at,
        ),
        forall|k: int, w: int|
            0 <= k < at && 0 <= w < text::words(query).len() ==> !#[trigger] text::occurs_at(
                text::ascii_lowercase(body),
                text::ascii_lowercase(text::words(query)[w]),
                k,
            ),
    ensures
        text::occurs(
            snippet(body, query, max),
            body.subrange(at, at + text::words(query)[word].len()),
        ),
{
    text::lemma_ascii_words(query);
    text::lemma_words_are_words(query);
    let hay = text::lowercase(body);
    let w = text::words(query)[word];
    let size = w.len() as int;
    assert(text::is_word(w));
    let low = text::ascii_lowercase(w);
    assert(text::lowercase(w) == low);
    assert forall|i: int| 0 <= i < body.len() implies text::lowercase(
        seq![#[trigger] body[i]],
    ).len() == 1 by {
        assert('\0' <= body[i] <= '\u{7f}');
        assert(vstd::utf8::is_ascii_chars(seq![body[i]]));
    }
    assert forall|i: int| at <= i < at + size implies !text::is_white(#[trigger] body[i]) by {
        assert(hay.subrange(at, at + size)[i - at] == low[i - at]);
        assert(low[i - at] == text::ascii_lower(w[i - at]));
        assert(hay[i] == text::ascii_lower(body[i]));
        assert(!text::is_white(w[i - at]));
        assert('\0' <= body[i] <= '\u{7f}');
        assert('\0' <= w[i - at] <= '\u{7f}');
    }
    assert forall|k: int, v: int|
        0 <= k < at && 0 <= v < text::words(query).len() && text::lowercase(
            text::words(query)[v],
        ).len() > 0 implies !#[trigger] text::occurs_at(
        hay,
        text::lowercase(text::words(query)[v]),
        k,
    ) by {
        assert(text::lowercase(text::words(query)[v]) == text::ascii_lowercase(
            text::words(query)[v],
        ));
    }
    lemma_ascii_bytes(body.subrange(at, at + size));
    law_match_is_in_snippet(body, query, max, word, at);
}

/// A text of ASCII takes a byte for each character.
proof fn lemma_ascii_bytes(s: Seq<char>)
    requires
        vstd::utf8::is_ascii_chars(s),
    ensures
        text::byte_len(s) == s.len(),
{
    text::lemma_byte_len(s);
    vstd::utf8::is_ascii_chars_encode_utf8(s);
}

/// Where no word of the query stands in a text, the snippet shows the front of the text,
/// and all of it where it has no more than `max` bytes.
pub proof fn law_front_is_shown_without_a_match(body: Seq<char>, query: Seq<char>, max: nat)
    requires
        forall|at: int, w: int|
            0 <= at && 0 <= w < text::words(query).len() && text::lowercase(
                text::words(query)[w],
            ).len() > 0 ==> !#[trigger] text::occurs_at(
                text::lowercase(body),
                text::lowercase(text::words(query)[w]),
                at,
            ),
    ensures
        snippet_center(body, query) == 0,
        window_start(body, 0, max) == 0,
        text::byte_len(body) <= max ==> snippet(body, query, max) == text::collapsed(body),
{
    let hay = text::lowercase(body);
    let list = needles(query);
    assert forall|at: int| !is_first_match(hay, list, at) by {
        if matches_at(hay, list, at) {
            let w = choose|w: int|
                0 <= w < list.len() && (#[trigger] list[w]).len() > 0 && text::occurs_at(
                    hay,
                    list[w],
                    at,
                );
            assert(list[w] == text::lowercase(text::words(query)[w]));
        }
    }
    assert(body.take(0) =~= seq![]);
    lemma_fitting(body, 0);
    let from = fitting(body, 0) as int;
    if from > 0 {
        text::lemma_byte_len_take(body, 0, from);
    }
    law_snippet_is_its_window(body, query, max);
    if text::byte_len(body) <= max {
        assert(fitting(body, max) == body.len());
        assert(body.subrange(0, body.len() as int) =~= body);
        assert(Seq::<char>::empty() + text::collapsed(body) + Seq::<char>::empty()
            =~= text::collapsed(body));
    }
}

/// Where characters of a text have lowercase forms of other lengths, the snippet is
/// centered on the character whose lowercase form stands where the first word of the query
/// stands: those before it come to no more characters in lowercase, and it takes them
/// beyond that place.
pub proof fn law_center_stands_for_the_match(body: Seq<char>, query: Seq<char>, at: int)
    requires
        is_first_match(text::lowercase(body), needles(query), at),
    ensures
        ({
            let n = snippet_center(body, query) as int;
            &&& n > 0 ==> lowered_len(body.take(n)) <= at
            &&& n + 1 < body.len() ==> at < lowered_len(body.take(n + 1))
            &&& n + 1 < body.len() ==> lowered_len(body.take(n + 1)) == lowered_len(body.take(n))
                + text::lowercase(seq![body[n]]).len()
        }),
{
    let chosen = choose|k: int| is_first_match(text::lowercase(body), needles(query), k);
    lemma_first_unique(text::lowercase(body), needles(query), at, chosen);
    lemma_source_index(body, at);
    let n = snippet_center(body, query) as int;
    if n + 1 < body.len() {
        assert(body.take(n + 1).drop_last() =~= body.take(n));
    }
}

/// In a text whose characters are lowered one for one, the snippet is centered on the
/// first place where any word of the query stands.
pub proof fn law_center_is_the_match(body: Seq<char>, query: Seq<char>, at: int)
    requires
        forall|i: int|
            0 <= i < body.len() ==> text::lowercase(seq![#[trigger] body[i]]).len() == 1,
        text::lowercase(body).len() == body.len(),
        is_first_match(text::lowercase(body), needles(query), at),
    ensures
        snippet_center(body, query) == at,
{
    let hay = text::lowercase(body);
    let chosen = choose|k: int| is_first_match(hay, needles(query), k);
    lemma_first_unique(hay, needles(query), at, chosen);
    lemma_match_range(hay, needles(query), at);
    lemma_source_index(body, at);
    let n = source_index(body, at) as int;
    lemma_lowered_in_place(body, n);
    if n + 1 < body.len() {
        lemma_lowered_in_place(body, n + 1);
    }
}

proof fn lemma_lowered_in_place(body: Seq<char>, n: int)
    requires
        0 <= n <= body.len(),
        forall|i: int|
            0 <= i < body.len() ==> text::lowercase(seq![#[trigger] body[i]]).len() == 1,
    ensures
        lowered_len(body.take(n)) == n,
    decreases n,
{
    if n > 0 {
        lemma_lowered_in_place(body, n - 1);
        assert(body.take(n).drop_last() =~= body.take(n - 1));
        assert(body.take(n).last() == body[n - 1]);
    }
}

/// Where there is a match, there is a first one.
proof fn lemma_has_first(hay: Seq<char>, needles: Seq<Seq<char>>, at: int)
    requires
        matches_at(hay, needles, at),
    ensures
        exists|k: int| is_first_match(hay, needles, k),
    decreases at,
{
    lemma_match_range(hay, needles, at);
    if exists|k: int| 0 <= k < at && #[trigger] matches_at(hay, needles, k) {
        let k = choose|k: int| 0 <= k < at && #[trigger] matches_at(hay, needles, k);
        lemma_has_first(hay, needles, k);
    } else {
        assert(is_first_match(hay, needles, at));
    }
}

/// The characters that lie in the first bytes of a text of ASCII are as many as the bytes,
/// or all of them.
pub proof fn law_fitting_in_ascii(s: Seq<char>, bytes: nat)
    requires
        vstd::utf8::is_ascii_chars(s),
    ensures
        fitting(s, bytes) == if bytes < s.len() {
            bytes
        } else {
            s.len()
        },
{
    lemma_fitting(s, bytes);
    let n = fitting(s, bytes) as int;
    lemma_ascii_bytes(s.take(n));
    if n < s.len() {
        lemma_ascii_bytes(s.take(n + 1));
    }
}

} // verus!
