//! What can be said of a query before it is parsed: how deep it nests, and whether it
//! is made of plain words.

use vstd::prelude::*;
use vstd::utf8::is_ascii_chars;
use crate::text;
use crate::text::chars_of;

verus! {

/// How deep a query nests at most that is parsed. The parser of `tantivy` reads what is
/// in parentheses twice on each level, so that its work doubles with each.
pub const MAX_NESTING: u64 = 20;

/// How many negations a query has at most that is parsed: the parser calls itself for
/// what is negated.
pub const MAX_NEGATIONS: u64 = 100;

/// How a character of a query is to be read.
#[derive(Clone, Copy, Debug, PartialEq, Eq, Structural)]
pub enum Mode {
    /// As it is.
    Plain,
    /// As a character that a backslash stands in front of.
    Escaped,
    /// As part of a phrase that ends with the given quote.
    Quoted(char),
    /// The same, with a backslash in front.
    QuotedEscaped(char),
    /// After the start of what may be a range or a pattern, in which parentheses and
    /// quotes have no meaning: where it ends is left open.
    Open,
}

/// Where in a run of characters a character stands.
#[derive(Clone, Copy, Debug, PartialEq, Eq, Structural)]
pub enum Run {
    /// At its start.
    Start,
    /// In a word, which goes on until a character that no word has.
    Word,
    /// Elsewhere.
    Other,
}

/// What is known of a query after some of its characters.
pub struct Scan {
    pub mode: Mode,
    pub run: Run,
    /// How many letters of `NOT` were read last.
    pub part: int,
    /// How many groups are open.
    pub open: int,
    /// How many were open at most.
    pub deepest: int,
    /// How many negations there were.
    pub negations: int,
    /// How many of them a tab or the end of a line follows. The parser may read what
    /// these negate twice.
    pub breaks: int,
}

/// White space as the parser knows it.
pub open spec fn is_gap(c: char) -> bool {
    c == ' ' || c == '\t' || c == '\n' || c == '\r'
}

/// Whether a character ends a word, and is no gap, parenthesis, quote, bracket or
/// backslash.
pub open spec fn ends_word(c: char) -> bool {
    c == '^' || c == '`' || c == '}' || c == ']'
}

/// Whether a word can start with a character. One that starts with another may be
/// something else.
pub open spec fn starts_word(c: char) -> bool {
    text::is_letter_or_number(c) || c == '_'
}

/// How many letters of `NOT` were read after one more character, where the word could
/// start at it.
pub open spec fn next_part(part: int, c: char, can_start: bool) -> int {
    if c == 'N' && can_start {
        1
    } else if c == 'O' && part == 1 {
        2
    } else if c == 'T' && part == 2 {
        3
    } else {
        0
    }
}

/// After a gap: a negation ends where the word that negates was read.
pub open spec fn after_gap(st: Scan, c: char) -> Scan {
    Scan {
        run: Run::Start,
        part: 0,
        negations: st.negations + (if st.part == 3 {
            1int
        } else {
            0int
        }),
        breaks: st.breaks + (if st.part == 3 && c != ' ' {
            1int
        } else {
            0int
        }),
        ..st
    }
}

/// After the start of a group.
pub open spec fn after_open(st: Scan) -> Scan {
    Scan {
        run: Run::Start,
        part: 0,
        open: st.open + 1,
        deepest: if st.open + 1 > st.deepest {
            st.open + 1
        } else {
            st.deepest
        },
        ..st
    }
}

/// After another character, in the given mode.
pub open spec fn after_other(st: Scan, mode: Mode) -> Scan {
    Scan { mode, run: Run::Other, part: 0, ..st }
}

/// After one more character.
pub open spec fn step(st: Scan, c: char) -> Scan {
    match st.mode {
        Mode::Quoted(q) => if c == '\\' {
            after_other(st, Mode::QuotedEscaped(q))
        } else if c == q {
            after_other(st, Mode::Plain)
        } else {
            st
        },
        Mode::QuotedEscaped(q) => after_other(st, Mode::Quoted(q)),
        Mode::Escaped => after_other(st, Mode::Plain),
        Mode::Open => if is_gap(c) {
            after_gap(st, c)
        } else if c == '(' {
            after_open(st)
        } else {
            Scan { part: next_part(st.part, c, true), ..st }
        },
        Mode::Plain => if is_gap(c) {
            after_gap(st, c)
        } else if c == '(' {
            after_open(st)
        } else if c == ')' {
            Scan { open: st.open - 1, ..after_other(st, Mode::Plain) }
        } else if c == '\\' {
            after_other(st, Mode::Escaped)
        } else if c == '"' || c == '\'' {
            after_other(st, Mode::Quoted(c))
        } else if c == '[' || c == '{' {
            after_other(st, Mode::Open)
        } else if (c == '/' || c == '<' || c == '>') && st.run != Run::Word {
            after_other(st, Mode::Open)
        } else if c == ':' {
            Scan { run: Run::Start, part: 0, ..st }
        } else if ends_word(c) {
            after_other(st, Mode::Plain)
        } else {
            Scan {
                run: if st.run == Run::Start {
                    if starts_word(c) {
                        Run::Word
                    } else {
                        Run::Other
                    }
                } else {
                    st.run
                },
                part: next_part(st.part, c, st.run != Run::Word),
                ..st
            }
        },
    }
}

/// What is known of a query after all of its characters.
pub open spec fn scanned(s: Seq<char>) -> Scan
    decreases s.len(),
{
    if s.len() == 0 {
        Scan {
            mode: Mode::Plain,
            run: Run::Start,
            part: 0,
            open: 0,
            deepest: 0,
            negations: 0,
            breaks: 0,
        }
    } else {
        step(scanned(s.drop_last()), s.last())
    }
}

/// How deep a query nests at most: by its groups, and by the negations whose operand may
/// be read twice.
pub open spec fn nesting(s: Seq<char>) -> int {
    scanned(s).deepest + scanned(s).breaks
}

/// How many negations a query has.
pub open spec fn negations(s: Seq<char>) -> int {
    scanned(s).negations
}

/// Whether a query nests too deep to be parsed.
pub open spec fn too_deep(s: Seq<char>) -> bool {
    nesting(s) > MAX_NESTING || negations(s) > MAX_NEGATIONS
}

/// White space as the parser knows it.
fn gap(c: char) -> (r: bool)
    ensures
        r == is_gap(c),
{
    c == ' ' || c == '\t' || c == '\n' || c == '\r'
}

/// How many letters of `NOT` were read after one more character.
fn part_after(part: u8, c: char, can_start: bool) -> (r: u8)
    ensures
        r == next_part(part as int, c, can_start),
{
    if c == 'N' && can_start {
        1
    } else if c == 'O' && part == 1 {
        2
    } else if c == 'T' && part == 2 {
        3
    } else {
        0
    }
}

/// Whether a query nests too deep to be parsed.
pub fn is_too_deep(query: &str) -> (r: bool)
    ensures
        r == too_deep(query@),
{
    let v = chars_of(query);
    let mut mode = Mode::Plain;
    let mut run = Run::Start;
    let mut part: u8 = 0;
    let mut open: i128 = 0;
    let mut deepest: i128 = 0;
    let mut negated: i128 = 0;
    let mut breaks: i128 = 0;
    let mut i: usize = 0;
    while i < v.len()
        invariant
            i <= v.len(),
            v@ == query@,
            scanned(v@.take(i as int)) == (Scan {
                mode,
                run,
                part: part as int,
                open: open as int,
                deepest: deepest as int,
                negations: negated as int,
                breaks: breaks as int,
            }),
            -(i as int) <= open <= i,
            0 <= deepest <= i,
            0 <= negated <= i,
            0 <= breaks <= i,
        decreases v.len() - i,
    {
        let c: char = v[i];
        proof {
            assert(v@.take(i + 1).drop_last() =~= v@.take(i as int));
            assert(v@.take(i + 1).last() == c);
        }
        match mode {
            Mode::Quoted(q) => {
                if c == '\\' {
                    mode = Mode::QuotedEscaped(q);
                    run = Run::Other;
                    part = 0;
                } else if c == q {
                    mode = Mode::Plain;
                    run = Run::Other;
                    part = 0;
                }
            },
            Mode::QuotedEscaped(q) => {
                mode = Mode::Quoted(q);
                run = Run::Other;
                part = 0;
            },
            Mode::Escaped => {
                mode = Mode::Plain;
                run = Run::Other;
                part = 0;
            },
            _ => {
                if gap(c) {
                    if part == 3 {
                        negated = negated + 1;
                        if c != ' ' {
                            breaks = breaks + 1;
                        }
                    }
                    run = Run::Start;
                    part = 0;
                } else if c == '(' {
                    open = open + 1;
                    if open > deepest {
                        deepest = open;
                    }
                    run = Run::Start;
                    part = 0;
                } else if mode == Mode::Open {
                    part = part_after(part, c, true);
                } else if c == ':' {
                    run = Run::Start;
                    part = 0;
                } else if c == ')' || c == '\\' || c == '"' || c == '\'' || c == '[' || c == '{'
                    || c == '^' || c == '`' || c == '}' || c == ']' || ((c == '/' || c == '<' || c
                    == '>') && run != Run::Word) {
                    if c == ')' {
                        open = open - 1;
                    } else if c == '\\' {
                        mode = Mode::Escaped;
                    } else if c == '"' || c == '\'' {
                        mode = Mode::Quoted(c);
                    } else if c == '[' || c == '{' || c == '/' || c == '<' || c == '>' {
                        mode = Mode::Open;
                    }
                    run = Run::Other;
                    part = 0;
                } else {
                    part = part_after(part, c, run != Run::Word);
                    if run == Run::Start {
                        run = if c.is_alphanumeric() || c == '_' {
                            Run::Word
                        } else {
                            Run::Other
                        };
                    }
                }
            },
        }
        i += 1;
    }
    assert(v@.take(i as int) =~= query@);
    deepest + breaks > MAX_NESTING as i128 || negated > MAX_NEGATIONS as i128
}

/// A text without an opening parenthesis and without the first letter of the word that
/// negates does not nest.
pub proof fn lemma_flat(s: Seq<char>)
    requires
        forall|i: int| 0 <= i < s.len() ==> #[trigger] s[i] != '(' && s[i] != 'N',
    ensures
        !too_deep(s),
        scanned(s).open <= 0,
        scanned(s).deepest == 0,
        scanned(s).part == 0,
        scanned(s).negations == 0,
        scanned(s).breaks == 0,
    decreases s.len(),
{
    if s.len() > 0 {
        let t = s.drop_last();
        assert forall|i: int| 0 <= i < t.len() implies #[trigger] t[i] != '(' && t[i] != 'N' by {
            assert(t[i] == s[i]);
        }
        lemma_flat(t);
        assert(s.last() == s[s.len() - 1]);
    }
}

/// Whether a character is a letter or a digit of ASCII.
pub open spec fn is_plain_char(c: char) -> bool {
    text::is_ascii_letter(c) || text::is_digit(c)
}

/// Whether a word of a query means itself: it is not one of those that join or negate.
pub open spec fn is_plain_word(w: Seq<char>) -> bool {
    w.len() < crate::store::WORD_LIMIT && w != "AND"@ && w != "OR"@ && w != "NOT"@ && w != "IN"@
}

/// Whether a query is made of plain words: letters and digits of ASCII and spaces
/// between them, with at least one word, and none of those that join or negate. Words
/// of forty letters and more are not indexed and so not plain.
pub open spec fn is_plain(s: Seq<char>) -> bool {
    &&& forall|i: int| 0 <= i < s.len() ==> is_plain_char(#[trigger] s[i]) || s[i] == ' '
    &&& text::words(s).len() > 0
    &&& forall|i: int| 0 <= i < text::words(s).len() ==> is_plain_word(#[trigger] text::words(s)[i])
}

/// The words of a text of ASCII are of ASCII.
proof fn lemma_words_ascii(s: Seq<char>)
    requires
        is_ascii_chars(s),
    ensures
        forall|i: int| 0 <= i < text::words(s).len() ==> is_ascii_chars(#[trigger] text::words(s)[i]),
    decreases s.len(),
{
    if s.len() > 0 {
        let front = s.drop_last();
        let before = text::words(front);
        assert forall|i: int| 0 <= i < front.len() implies '\0' <= #[trigger] front[i] <= '\u{7f}' by {
            assert(front[i] == s[i]);
        }
        lemma_words_ascii(front);
        text::lemma_words_are_words(front);
        let all = text::words(s);
        let c = s.last();
        assert(c == s[s.len() - 1]);
        assert forall|i: int| 0 <= i < all.len() implies is_ascii_chars(#[trigger] all[i]) by {
            if i < before.len() && all[i] == before[i] {
                assert(is_ascii_chars(before[i]));
            } else if s.len() > 1 && !text::is_white(s[s.len() - 2]) {
                assert(front.last() == s[s.len() - 2]);
                assert(all[i] == before.last().push(c));
                assert(is_ascii_chars(before[before.len() - 1]));
            } else {
                assert(all[i] == seq![c]);
            }
        }
    }
}

/// The words of a query of plain words are of ASCII, and so is the lowercase form of
/// each.
pub proof fn lemma_plain_words_are_ascii(s: Seq<char>, at: int)
    requires
        is_plain(s),
        0 <= at < text::words(s).len(),
    ensures
        is_ascii_chars(text::lowercase(text::words(s)[at])),
{
    assert forall|i: int| 0 <= i < s.len() implies '\0' <= #[trigger] s[i] <= '\u{7f}' by {
        assert(is_plain_char(s[i]) || s[i] == ' ');
    }
    lemma_words_ascii(s);
    let w = text::words(s)[at];
    assert(is_ascii_chars(w));
    let low = text::lowercase(w);
    assert forall|i: int| 0 <= i < low.len() implies '\0' <= #[trigger] low[i] <= '\u{7f}' by {
        assert('\0' <= w[i] <= '\u{7f}');
        assert(low[i] == text::ascii_lower(w[i]));
    }
}

/// What is known of a query after letters, digits and spaces, as long as no word before
/// its last negates.
proof fn lemma_plain_scan(s: Seq<char>)
    requires
        forall|i: int| 0 <= i < s.len() ==> is_plain_char(#[trigger] s[i]) || s[i] == ' ',
        forall|i: int|
            0 <= i < text::words(s).len() && (i < text::words(s).len() - 1 || s.last() == ' ')
                ==> #[trigger] text::words(s)[i] != seq!['N', 'O', 'T'],
    ensures
        ({
            let st = scanned(s);
            let word = s.len() > 0 && s.last() != ' ';
            let last = text::words(s).last();
            &&& st.mode == Mode::Plain
            &&& st.open == 0 && st.deepest == 0 && st.breaks == 0 && st.negations == 0
            &&& word ==> text::words(s).len() > 0 && st.run == Run::Word
            &&& !word ==> st.run == Run::Start && st.part == 0
            &&& word ==> (st.part == 1 <==> last == seq!['N'])
            &&& word ==> (st.part == 2 <==> last == seq!['N', 'O'])
            &&& word ==> (st.part == 3 <==> last == seq!['N', 'O', 'T'])
        }),
    decreases s.len(),
{
    if s.len() > 0 {
        let t = s.drop_last();
        let c = s.last();
        let (before, all) = (text::words(t), text::words(s));
        assert(s[s.len() - 1] == c);
        text::lemma_words_are_words(t);
        if t.len() > 0 {
            assert(t.last() == s[s.len() - 2]);
            assert(is_plain_char(s[s.len() - 2]) || s[s.len() - 2] == ' ');
        }
        assert forall|i: int| 0 <= i < t.len() implies is_plain_char(#[trigger] t[i]) || t[i]
            == ' ' by {
            assert(t[i] == s[i]);
        }
        assert forall|i: int|
            0 <= i < before.len() && (i < before.len() - 1 || t.last() == ' ') implies
            #[trigger] before[i] != seq!['N', 'O', 'T'] by {
            assert(all[i] == before[i]);
        }
        lemma_plain_scan(t);
        if c == ' ' {
            if t.len() > 0 && t.last() != ' ' {
                assert(all[all.len() - 1] == before.last());
            }
        } else if t.len() > 0 && t.last() != ' ' {
            lemma_grown(before.last(), c);
            assert(all.last() == before.last().push(c));
        } else {
            lemma_grown(Seq::empty(), c);
            assert(all.last() =~= Seq::<char>::empty().push(c));
        }
    }
}

/// When a word with one more letter is one of the first letters of the word that negates.
proof fn lemma_grown(w: Seq<char>, c: char)
    ensures
        w.push(c) == seq!['N'] <==> w.len() == 0 && c == 'N',
        w.push(c) == seq!['N', 'O'] <==> w == seq!['N'] && c == 'O',
        w.push(c) == seq!['N', 'O', 'T'] <==> w == seq!['N', 'O'] && c == 'T',
{
    let all = w.push(c);
    assert(all.drop_last() =~= w);
    assert(all.last() == c);
    if all == seq!['N'] {
        assert(w =~= seq!['N'].drop_last());
    }
    if w.len() == 0 && c == 'N' {
        assert(all =~= seq!['N']);
    }
    if all == seq!['N', 'O'] {
        assert(seq!['N', 'O'].drop_last() =~= seq!['N']);
    }
    if w == seq!['N'] && c == 'O' {
        assert(all =~= seq!['N', 'O']);
    }
    if all == seq!['N', 'O', 'T'] {
        assert(seq!['N', 'O', 'T'].drop_last() =~= seq!['N', 'O']);
    }
    if w == seq!['N', 'O'] && c == 'T' {
        assert(all =~= seq!['N', 'O', 'T']);
    }
}

/// A query of plain words never nests too deep, however many words it has.
pub proof fn law_plain_is_not_too_deep(s: Seq<char>)
    requires
        is_plain(s),
    ensures
        !too_deep(s),
{
    reveal_strlit("NOT");
    assert("NOT"@ =~= seq!['N', 'O', 'T']);
    lemma_plain_scan(s);
}

/// Letters, digits and spaces make plain words, but for the four words that mean something
/// else and for those of forty characters and more.
pub proof fn law_letters_and_digits_are_plain(a: Seq<char>, w: Seq<char>)
    requires
        0 < w.len() < 40,
        forall|i: int|
            0 <= i < w.len() ==> ('a' <= #[trigger] w[i] && w[i] <= 'z') || ('A' <= w[i] && w[i] <= 'Z')
                || ('0' <= w[i] && w[i] <= '9'),
        w != "AND"@ && w != "OR"@ && w != "NOT"@ && w != "IN"@,
    ensures
        is_plain(w),
        is_plain(a) ==> is_plain(a + seq![' '] + w),
        is_plain(a) ==> is_plain(w + seq![' '] + a),
{
    assert(text::is_word(w)) by {
        assert forall|i: int| 0 <= i < w.len() implies !#[trigger] text::is_white(w[i]) by {
            assert(('a' <= w[i] && w[i] <= 'z') || ('A' <= w[i] && w[i] <= 'Z') || ('0' <= w[i]
                && w[i] <= '9'));
        }
    }
    text::law_white_space_parts_words(w, ' ', a);
    text::law_white_space_parts_words(a, ' ', w);
    assert(text::words(w)[0] == w);
    if is_plain(a) {
        let (x, y) = (a + seq![' '] + w, w + seq![' '] + a);
        assert forall|i: int| 0 <= i < x.len() implies is_plain_char(#[trigger] x[i]) || x[i]
            == ' ' by {
            if i < a.len() {
                assert(x[i] == a[i]);
            } else if i > a.len() {
                assert(x[i] == w[i - a.len() - 1]);
            }
        }
        assert forall|i: int| 0 <= i < y.len() implies is_plain_char(#[trigger] y[i]) || y[i]
            == ' ' by {
            if i < w.len() {
                assert(y[i] == w[i]);
            } else if i > w.len() {
                assert(y[i] == a[i - w.len() - 1]);
            }
        }
    }
}

/// How often a character stands in a text.
pub open spec fn occurrences(s: Seq<char>, c: char) -> int
    decreases s.len(),
{
    if s.len() == 0 {
        0
    } else {
        occurrences(s.drop_last(), c) + (if s.last() == c {
            1int
        } else {
            0int
        })
    }
}

/// A query with up to twenty opening parentheses and first letters of the word that
/// negates, taken together, is not too deep, wherever they stand.
pub proof fn law_few_groups_are_not_too_deep(s: Seq<char>)
    requires
        occurrences(s, '(') + occurrences(s, 'N') <= 20,
    ensures
        !too_deep(s),
{
    lemma_scan_bounds(s);
}

proof fn lemma_scan_bounds(s: Seq<char>)
    ensures
        ({
            let st = scanned(s);
            let begun: int = if st.part > 0 {
                1
            } else {
                0
            };
            &&& st.open <= occurrences(s, '(')
            &&& 0 <= st.deepest <= occurrences(s, '(')
            &&& 0 <= st.part
            &&& 0 <= st.breaks <= st.negations
            &&& st.negations + begun <= occurrences(s, 'N')
        }),
    decreases s.len(),
{
    if s.len() > 0 {
        lemma_scan_bounds(s.drop_last());
    }
}

/// A query that starts with more than twenty groups, one in the other, is too deep, and so
/// is every query that goes on from one that is too deep.
pub proof fn law_deep_groups_are_too_deep(n: nat, s: Seq<char>, rest: Seq<char>)
    ensures
        n > 20 ==> too_deep(Seq::new(n, |i: int| '(')),
        n <= 20 ==> !too_deep(Seq::new(n, |i: int| '(')),
        too_deep(s) ==> too_deep(s + rest),
{
    lemma_groups(n);
    lemma_scan_grows(s, rest);
}

proof fn lemma_groups(n: nat)
    ensures
        ({
            let st = scanned(Seq::new(n, |i: int| '('));
            st.mode == Mode::Plain && st.open == n && st.deepest == n && st.negations == 0
                && st.breaks == 0
        }),
    decreases n,
{
    let all = Seq::new(n, |i: int| '(');
    if n > 0 {
        lemma_groups((n - 1) as nat);
        assert(all.drop_last() =~= Seq::new((n - 1) as nat, |i: int| '('));
        assert(all.last() == '(');
    }
}

proof fn lemma_scan_grows(s: Seq<char>, rest: Seq<char>)
    ensures
        scanned(s + rest).deepest >= scanned(s).deepest,
        scanned(s + rest).breaks >= scanned(s).breaks,
        scanned(s + rest).negations >= scanned(s).negations,
    decreases rest.len(),
{
    if rest.len() > 0 {
        lemma_scan_grows(s, rest.drop_last());
        assert((s + rest).drop_last() =~= s + rest.drop_last());
    } else {
        assert(s + rest =~= s);
    }
}

/// Groups count wherever they stand: behind plain words more than twenty of them, one in
/// the other, are too deep, and up to twenty are not.
pub proof fn law_deep_groups_behind_words_are_too_deep(s: Seq<char>, n: nat)
    requires
        is_plain(s),
    ensures
        too_deep(s + Seq::new(n, |i: int| '(')) <==> n > 20,
{
    reveal_strlit("NOT");
    assert("NOT"@ =~= seq!['N', 'O', 'T']);
    lemma_plain_scan(s);
    lemma_groups_behind(s, n);
}

proof fn lemma_groups_behind(s: Seq<char>, n: nat)
    requires
        scanned(s).mode == Mode::Plain,
        scanned(s).open == 0,
        scanned(s).deepest == 0,
        scanned(s).negations == 0,
        scanned(s).breaks == 0,
    ensures
        ({
            let st = scanned(s + Seq::new(n, |i: int| '('));
            st.mode == Mode::Plain && st.open == n && st.deepest == n && st.negations == 0
                && st.breaks == 0
        }),
    decreases n,
{
    let groups = Seq::new(n, |i: int| '(');
    let all = s + groups;
    if n > 0 {
        lemma_groups_behind(s, (n - 1) as nat);
        assert(all.drop_last() =~= s + Seq::new((n - 1) as nat, |i: int| '('));
        assert(all.last() == '(');
    } else {
        assert(all =~= s);
    }
}

/// Groups side by side do not nest: however many of them stand behind each other, closed
/// again before the next, they are one deep.
pub proof fn law_groups_side_by_side_do_not_nest(n: nat)
    ensures
        !too_deep(side_by_side(n)),
        n > 0 ==> nesting(side_by_side(n)) == 1,
{
    lemma_side_by_side(n);
}

/// So many groups, one behind the other.
pub open spec fn side_by_side(n: nat) -> Seq<char>
    decreases n,
{
    if n == 0 {
        seq![]
    } else {
        side_by_side((n - 1) as nat).push('(').push(')')
    }
}

proof fn lemma_side_by_side(n: nat)
    ensures
        ({
            let st = scanned(side_by_side(n));
            &&& st.mode == Mode::Plain && st.open == 0 && st.negations == 0 && st.breaks == 0
            &&& st.deepest == if n > 0 {
                1int
            } else {
                0int
            }
        }),
    decreases n,
{
    if n > 0 {
        let rest = side_by_side((n - 1) as nat);
        lemma_side_by_side((n - 1) as nat);
        let all = rest.push('(').push(')');
        assert(all.drop_last() =~= rest.push('('));
        assert(rest.push('(').drop_last() =~= rest);
        assert(scanned(rest.push('(')) == step(scanned(rest), '('));
        assert(scanned(all) == step(scanned(rest.push('(')), ')'));
    }
}

/// Negations count one by one: a query that starts with more than a hundred of them is too
/// deep, and with up to a hundred, each followed by a space, it is not.
pub proof fn law_many_negations_are_too_deep(n: nat)
    ensures
        negations(negated(n)) == n,
        too_deep(negated(n)) <==> n > 100,
{
    lemma_negated(n);
}

/// So many words that negate, one behind the other.
pub open spec fn negated(n: nat) -> Seq<char>
    decreases n,
{
    if n == 0 {
        seq![]
    } else {
        negated((n - 1) as nat).push('N').push('O').push('T').push(' ')
    }
}

proof fn lemma_negated(n: nat)
    ensures
        ({
            let st = scanned(negated(n));
            st.mode == Mode::Plain && st.run == Run::Start && st.part == 0 && st.open == 0
                && st.deepest == 0 && st.breaks == 0 && st.negations == n
        }),
    decreases n,
{
    if n > 0 {
        let a = negated((n - 1) as nat);
        lemma_negated((n - 1) as nat);
        let b = a.push('N');
        let c = b.push('O');
        let d = c.push('T');
        let e = d.push(' ');
        assert(b.drop_last() =~= a && c.drop_last() =~= b && d.drop_last() =~= c && e.drop_last()
            =~= d);
        assert(scanned(b) == step(scanned(a), 'N'));
        assert(scanned(c) == step(scanned(b), 'O'));
        assert(scanned(d) == step(scanned(c), 'T'));
        assert(scanned(e) == step(scanned(d), ' '));
    }
}

/// What stands in a phrase or behind a backslash does not count: a group in quotes, or one
/// that is escaped, is none.
pub proof fn law_quoted_groups_do_not_count(s: Seq<char>, inner: Seq<char>)
    requires
        is_plain(s),
        !inner.contains('"'),
        !inner.contains('\\'),
    ensures
        !too_deep(s + seq!['"'] + inner + seq!['"']),
        !too_deep(s + seq!['\\', '(']),
{
    reveal_strlit("NOT");
    assert("NOT"@ =~= seq!['N', 'O', 'T']);
    lemma_plain_scan(s);
    let open = s + seq!['"'];
    assert(open.drop_last() =~= s);
    lemma_in_quotes(open, inner);
    let closed = open + inner + seq!['"'];
    assert(closed.drop_last() =~= open + inner);
    assert(scanned(closed) == step(scanned(open + inner), '"'));
    let bare = s + seq!['\\'];
    let escaped = s + seq!['\\', '('];
    assert(bare.drop_last() =~= s);
    assert(escaped.drop_last() =~= bare);
    assert(scanned(bare) == step(scanned(s), '\\'));
    assert(scanned(escaped) == step(scanned(bare), '('));
}

proof fn lemma_in_quotes(s: Seq<char>, inner: Seq<char>)
    requires
        scanned(s).mode == Mode::Quoted('"'),
        !inner.contains('"'),
        !inner.contains('\\'),
    ensures
        scanned(s + inner) == scanned(s),
    decreases inner.len(),
{
    if inner.len() > 0 {
        let rest = inner.drop_last();
        assert(inner.contains(inner[inner.len() - 1]));
        assert forall|c: char| rest.contains(c) implies inner.contains(c) by {
            let k = choose|k: int| 0 <= k < rest.len() && rest[k] == c;
            assert(inner[k] == c);
        }
        lemma_in_quotes(s, rest);
        assert((s + inner).drop_last() =~= s + rest);
        assert((s + inner).last() == inner.last());
    } else {
        assert(s + inner =~= s);
    }
}

/// The word that negates does so before a space, a tab or the end of a line, and before
/// nothing else; before all but a space it counts as a level of nesting too.
pub proof fn law_negation_ends_at_a_gap(c: char)
    ensures
        ({
            let s = seq!['N', 'O', 'T', c];
            &&& negations(s) == if c == ' ' || c == '\t' || c == '\n' || c == '\r' {
                1int
            } else {
                0int
            }
            &&& c == ' ' ==> nesting(s) == 0
            &&& c == '\t' || c == '\n' || c == '\r' ==> nesting(s) == 1
        }),
{
    let s0 = Seq::<char>::empty();
    let s1 = s0.push('N');
    let s2 = s1.push('O');
    let s3 = s2.push('T');
    let s4 = s3.push(c);
    assert(s4 =~= seq!['N', 'O', 'T', c]);
    assert(s1.drop_last() =~= s0 && s2.drop_last() =~= s1 && s3.drop_last() =~= s2 && s4.drop_last()
        =~= s3);
    assert(scanned(s1) == step(scanned(s0), 'N'));
    assert(scanned(s2) == step(scanned(s1), 'O'));
    assert(scanned(s3) == step(scanned(s2), 'T'));
    assert(scanned(s4) == step(scanned(s3), c));
}

/// The word that negates counts where a word can begin: behind another word only after
/// something that ends it, and never in the middle of one.
pub proof fn law_negation_begins_a_word(c: char)
    ensures
        negations(seq!['a', c, 'N', 'O', 'T', ' ']) == if c == ' ' || c == '\t' || c == '\n' || c
            == '\r' || c == '(' || c == ')' || c == '[' || c == ']' || c == '{' || c == '}' || c
            == ':' || c == '^' || c == '`' {
            1int
        } else {
            0int
        },
{
    let s0 = Seq::<char>::empty();
    let s1 = s0.push('a');
    let s2 = s1.push(c);
    let s3 = s2.push('N');
    let s4 = s3.push('O');
    let s5 = s4.push('T');
    let s6 = s5.push(' ');
    assert(s6 =~= seq!['a', c, 'N', 'O', 'T', ' ']);
    assert(s1.drop_last() =~= s0 && s2.drop_last() =~= s1 && s3.drop_last() =~= s2);
    assert(s4.drop_last() =~= s3 && s5.drop_last() =~= s4 && s6.drop_last() =~= s5);
    assert(scanned(s1) == step(scanned(s0), 'a'));
    assert(scanned(s2) == step(scanned(s1), c));
    assert(scanned(s3) == step(scanned(s2), 'N'));
    assert(scanned(s4) == step(scanned(s3), 'O'));
    assert(scanned(s5) == step(scanned(s4), 'T'));
    assert(scanned(s6) == step(scanned(s5), ' '));
}

} // verus!
