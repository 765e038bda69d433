//! Text as sequences of characters: the operations on strings that the rest
//! of the library is stated over.

use vstd::prelude::*;
use vstd::utf8::*;

verus! {

/// Whether `char::is_whitespace` holds of a character outside ASCII.
pub uninterp spec fn wide_white(c: char) -> bool;

/// Whether `char::is_lowercase` holds of a character outside ASCII.
pub uninterp spec fn wide_lower(c: char) -> bool;

/// Whether `char::is_uppercase` holds of a character outside ASCII.
pub uninterp spec fn wide_upper(c: char) -> bool;

/// Whether `char::is_alphabetic` holds of a character outside ASCII.
pub uninterp spec fn wide_letter(c: char) -> bool;

/// Whether `char::is_alphanumeric` holds of a character outside ASCII.
pub uninterp spec fn wide_letter_or_number(c: char) -> bool;

/// What `str::to_lowercase` makes of a text that is not all ASCII.
pub uninterp spec fn wide_lowercase(s: Seq<char>) -> Seq<char>;

/// `String::push` appends one character and changes nothing else.
pub assume_specification[ std::string::String::push ](s: &mut std::string::String, c: char)
    ensures
        final(s)@ == old(s)@.push(c),
;

/// `char::is_whitespace` tells the Unicode property `White_Space`. Among the
/// ASCII characters these are the space and the five controls from tab to
/// carriage return.
pub assume_specification[ char::is_whitespace ](c: char) -> (b: bool)
    ensures
        is_ascii_char(c) ==> b == (c == ' ' || 0x09 <= (c as u32) <= 0x0d),
        !is_ascii_char(c) ==> b == wide_white(c),
;

/// `char::is_lowercase` tells the Unicode property `Lowercase`. Among the ASCII
/// characters these are the letters from `a` to `z`.
pub assume_specification[ char::is_lowercase ](c: char) -> (b: bool)
    ensures
        is_ascii_char(c) ==> b == ('a' <= c && c <= 'z'),
        !is_ascii_char(c) ==> b == wide_lower(c),
;

/// `char::is_uppercase` tells the Unicode property `Uppercase`. Among the ASCII
/// characters these are the letters from `A` to `Z`.
pub assume_specification[ char::is_uppercase ](c: char) -> (b: bool)
    ensures
        is_ascii_char(c) ==> b == ('A' <= c && c <= 'Z'),
        !is_ascii_char(c) ==> b == wide_upper(c),
;

/// `char::is_alphabetic` tells the Unicode property `Alphabetic`. Among the
/// ASCII characters these are the letters of either case.
pub assume_specification[ char::is_alphabetic ](c: char) -> (b: bool)
    ensures
        is_ascii_char(c) ==> b == is_ascii_letter(c),
        !is_ascii_char(c) ==> b == wide_letter(c),
;

/// `char::is_alphanumeric` holds of the alphabetic and of the numeric
/// characters. Among the ASCII characters these are the letters and the digits.
pub assume_specification[ char::is_alphanumeric ](c: char) -> (b: bool)
    ensures
        is_ascii_char(c) ==> b == (is_ascii_letter(c) || is_digit(c)),
        !is_ascii_char(c) ==> b == wide_letter_or_number(c),
;

/// `str::to_lowercase` gives the lowercase form of a text, which can be longer
/// or shorter than the text. An ASCII text keeps its length and has its
/// letters from `A` to `Z` replaced.
pub assume_specification[ str::to_lowercase ](s: &str) -> (r: std::string::String)
    ensures
        is_ascii_chars(s@) ==> r@ == ascii_lowercase(s@),
        !is_ascii_chars(s@) ==> r@ == wide_lowercase(s@),
;

/// The characters of ASCII.
pub open spec fn is_ascii_char(c: char) -> bool {
    (c as u32) < 0x80
}

/// The ASCII letters of either case.
pub open spec fn is_ascii_letter(c: char) -> bool {
    ('a' <= c && c <= 'z') || ('A' <= c && c <= 'Z')
}

/// White space.
pub open spec fn is_white(c: char) -> bool {
    if is_ascii_char(c) {
        c == ' ' || 0x09 <= (c as u32) <= 0x0d
    } else {
        wide_white(c)
    }
}

/// Lowercase characters.
pub open spec fn is_lower(c: char) -> bool {
    if is_ascii_char(c) {
        'a' <= c && c <= 'z'
    } else {
        wide_lower(c)
    }
}

/// Uppercase characters.
pub open spec fn is_upper(c: char) -> bool {
    if is_ascii_char(c) {
        'A' <= c && c <= 'Z'
    } else {
        wide_upper(c)
    }
}

/// Alphabetic characters.
pub open spec fn is_letter(c: char) -> bool {
    if is_ascii_char(c) {
        is_ascii_letter(c)
    } else {
        wide_letter(c)
    }
}

/// Alphabetic and numeric characters.
pub open spec fn is_letter_or_number(c: char) -> bool {
    if is_ascii_char(c) {
        is_ascii_letter(c) || is_digit(c)
    } else {
        wide_letter_or_number(c)
    }
}

/// The lowercase form of a text.
pub open spec fn lowercase(s: Seq<char>) -> Seq<char> {
    if is_ascii_chars(s) {
        ascii_lowercase(s)
    } else {
        wide_lowercase(s)
    }
}

/// The ASCII digits.
pub open spec fn is_digit(c: char) -> bool {
    '0' <= c && c <= '9'
}

/// The lowercase form of an ASCII capital; any other character as it is.
pub open spec fn ascii_lower(c: char) -> char {
    if 'A' <= c && c <= 'Z' {
        ((c as u32) + 32) as char
    } else {
        c
    }
}

/// A text with its ASCII capitals in lowercase.
pub open spec fn ascii_lowercase(s: Seq<char>) -> Seq<char> {
    s.map_values(|c: char| ascii_lower(c))
}

/// Whether a text holds nothing but white space.
pub open spec fn is_blank(s: Seq<char>) -> bool {
    forall|i: int| 0 <= i < s.len() ==> #[trigger] is_white(s[i])
}

/// A text without the white space at its front.
pub open spec fn trim_start(s: Seq<char>) -> Seq<char>
    decreases s.len(),
{
    if s.len() > 0 && is_white(s[0]) {
        trim_start(s.drop_first())
    } else {
        s
    }
}

/// A text without the white space at its end.
pub open spec fn trim_end(s: Seq<char>) -> Seq<char>
    decreases s.len(),
{
    if s.len() > 0 && is_white(s.last()) {
        trim_end(s.drop_last())
    } else {
        s
    }
}

/// A text without the white space at either end.
pub open spec fn trimmed(s: Seq<char>) -> Seq<char> {
    trim_end(trim_start(s))
}

/// The words of a text: its maximal runs of characters that are not white
/// space, in order. A character belongs to the word it follows, or opens one.
pub open spec fn words(s: Seq<char>) -> Seq<Seq<char>>
    decreases s.len(),
{
    if s.len() == 0 {
        seq![]
    } else {
        let before = words(s.drop_last());
        if is_white(s.last()) {
            before
        } else if s.len() > 1 && !is_white(s[s.len() - 2]) {
            before.drop_last().push(before.last().push(s.last()))
        } else {
            before.push(seq![s.last()])
        }
    }
}

/// The parts in order, with `sep` between each two of them.
pub open spec fn joined(parts: Seq<Seq<char>>, sep: Seq<char>) -> Seq<char>
    decreases parts.len(),
{
    if parts.len() == 0 {
        seq![]
    } else if parts.len() == 1 {
        parts[0]
    } else {
        joined(parts.drop_last(), sep) + sep + parts.last()
    }
}

/// The words of a text with one space between each two of them.
pub open spec fn collapsed(s: Seq<char>) -> Seq<char> {
    joined(words(s), seq![' '])
}

/// Whether a text is one line of words with single spaces between them.
pub open spec fn one_line(s: Seq<char>) -> bool {
    forall|i: int|
        0 <= i < s.len() && #[trigger] is_white(s[i]) ==> s[i] == ' ' && 0 < i < s.len() - 1
            && !is_white(s[i - 1]) && !is_white(s[i + 1])
}

/// Whether each part is a word: not empty, and without white space.
pub open spec fn all_words(parts: Seq<Seq<char>>) -> bool {
    forall|i: int| 0 <= i < parts.len() ==> #[trigger] is_word(parts[i])
}

/// Whether a text is not empty and holds no white space.
pub open spec fn is_word(s: Seq<char>) -> bool {
    s.len() > 0 && forall|i: int| 0 <= i < s.len() ==> !#[trigger] is_white(s[i])
}

/// The words of a text are words, and there is one at its end unless it ends in
/// white space.
pub proof fn lemma_words_are_words(s: Seq<char>)
    ensures
        all_words(words(s)),
        s.len() > 0 && !is_white(s.last()) ==> words(s).len() > 0,
    decreases s.len(),
{
    if s.len() > 0 {
        let t = s.drop_last();
        let before = words(t);
        lemma_words_are_words(t);
        if !is_white(s.last()) {
            if s.len() > 1 && !is_white(s[s.len() - 2]) {
                assert(is_word(before.last()));
                assert(is_word(before.last().push(s.last())));
            } else {
                assert(is_word(seq![s.last()]));
            }
        }
    }
}

/// Words with single spaces between them are one line.
pub proof fn lemma_joined_one_line(parts: Seq<Seq<char>>)
    requires
        all_words(parts),
    ensures
        one_line(joined(parts, seq![' '])),
        parts.len() > 0 ==> is_edged(joined(parts, seq![' '])),
    decreases parts.len(),
{
    if parts.len() > 0 {
        assert(is_word(parts.last()));
        if parts.len() > 1 {
            let rest = parts.drop_last();
            assert forall|i: int| 0 <= i < rest.len() implies #[trigger] is_word(rest[i]) by {
                assert(is_word(parts[i]));
            }
            lemma_joined_one_line(rest);
            let a = joined(rest, seq![' ']);
            let b = parts.last();
            let r = a + seq![' '] + b;
            assert forall|i: int| 0 <= i < r.len() && #[trigger] is_white(r[i]) implies r[i] == ' '
                && 0 < i < r.len() - 1 && !is_white(r[i - 1]) && !is_white(r[i + 1]) by {
                if i < a.len() {
                    assert(is_white(a[i]));
                    assert(r[i - 1] == a[i - 1] && r[i + 1] == a[i + 1]);
                } else if i > a.len() {
                    assert(!is_white(b[i - a.len() - 1]));
                }
            }
            assert(r.last() == b.last() && !is_white(b[b.len() - 1]));
            assert(r[0] == a[0]);
        } else {
            let r = parts[0];
            assert(!is_white(r[0]) && !is_white(r[r.len() - 1]));
        }
    }
}

/// Whether a text begins and ends with a character that is not white space.
pub open spec fn is_edged(s: Seq<char>) -> bool {
    s.len() > 0 && !is_white(s[0]) && !is_white(s.last())
}

/// How many characters the parts have between them, with one more between each
/// two.
pub open spec fn spread(parts: Seq<Seq<char>>) -> nat
    decreases parts.len(),
{
    if parts.len() == 0 {
        0
    } else if parts.len() == 1 {
        parts[0].len()
    } else {
        spread(parts.drop_last()) + 1 + parts.last().len()
    }
}

/// A text is at least as long as its words with single spaces between them.
pub proof fn lemma_collapsed_len(s: Seq<char>)
    ensures
        collapsed(s).len() <= s.len(),
{
    lemma_joined_len(words(s));
    lemma_words_len(s);
}

proof fn lemma_joined_len(parts: Seq<Seq<char>>)
    ensures
        joined(parts, seq![' ']).len() == spread(parts),
    decreases parts.len(),
{
    if parts.len() > 1 {
        lemma_joined_len(parts.drop_last());
    }
}

/// The words of a text end before the white space at its end.
proof fn lemma_words_len(s: Seq<char>)
    ensures
        spread(words(s)) <= s.len(),
        s.len() > 0 && is_white(s.last()) ==> spread(words(s)) < s.len(),
        s.len() > 0 && !is_white(s.last()) ==> words(s).len() > 0,
    decreases s.len(),
{
    if s.len() > 0 {
        let t = s.drop_last();
        let before = words(t);
        lemma_words_len(t);
        if !is_white(s.last()) {
            if s.len() > 1 && !is_white(s[s.len() - 2]) {
                assert(t.last() == s[s.len() - 2]);
                let grown = before.drop_last().push(before.last().push(s.last()));
                assert(grown.drop_last() =~= before.drop_last());
                if before.len() == 1 {
                    assert(grown[0] == before[0].push(s.last()));
                }
            } else {
                let grown = before.push(seq![s.last()]);
                assert(grown.drop_last() =~= before);
                if s.len() > 1 {
                    assert(is_white(t.last()));
                }
            }
        }
    }
}

/// White space parts words, and nothing else does: the words of two texts with white
/// space between them are the words of each in turn, and a text without white space is
/// one word.
pub proof fn law_white_space_parts_words(a: Seq<char>, c: char, b: Seq<char>)
    requires
        is_white(c),
    ensures
        words(a + seq![c] + b) == words(a) + words(b),
        is_word(a) ==> words(a) == seq![a],
        is_blank(a) ==> words(a) == Seq::<Seq<char>>::empty(),
{
    lemma_words_parted(a, c, b);
    if is_word(a) {
        lemma_word_is_its_words(a);
    }
    if is_blank(a) {
        lemma_blank_has_no_words(a);
    }
}

proof fn lemma_words_parted(a: Seq<char>, c: char, b: Seq<char>)
    requires
        is_white(c),
    ensures
        words(a + seq![c] + b) == words(a) + words(b),
    decreases b.len(),
{
    let s = a + seq![c] + b;
    if b.len() == 0 {
        assert(s.drop_last() =~= a);
        assert(s.last() == c);
        assert(words(a) + words(b) =~= words(a));
    } else {
        let t = b.drop_last();
        lemma_words_parted(a, c, t);
        lemma_words_are_words(t);
        assert(s.drop_last() =~= a + seq![c] + t);
        assert(s.last() == b.last());
        if !is_white(b.last()) {
            if b.len() > 1 {
                assert(s[s.len() - 2] == b[b.len() - 2]);
                assert(t.last() == b[b.len() - 2]);
            } else {
                assert(s[s.len() - 2] == c);
                assert(t =~= seq![]);
            }
        }
        assert(words(s) =~= words(a) + words(b));
    }
}

/// A word is its only word.
proof fn lemma_word_is_its_words(s: Seq<char>)
    requires
        is_word(s),
    ensures
        words(s) == seq![s],
    decreases s.len(),
{
    let t = s.drop_last();
    assert(!is_white(s[s.len() - 1]));
    if s.len() > 1 {
        assert forall|i: int| 0 <= i < t.len() implies !#[trigger] is_white(t[i]) by {
            assert(!is_white(s[i]));
        }
        lemma_word_is_its_words(t);
        assert(!is_white(s[s.len() - 2]));
        assert(t.push(s.last()) =~= s);
        assert(words(s) =~= seq![s]);
    } else {
        assert(t =~= seq![]);
        assert(seq![s.last()] =~= s);
        assert(words(t) =~= seq![]);
        assert(words(s) =~= seq![s]);
    }
}

/// A blank text has no words.
proof fn lemma_blank_has_no_words(s: Seq<char>)
    requires
        is_blank(s),
    ensures
        words(s) == Seq::<Seq<char>>::empty(),
    decreases s.len(),
{
    if s.len() > 0 {
        let t = s.drop_last();
        assert(is_white(s[s.len() - 1]));
        assert forall|i: int| 0 <= i < t.len() implies #[trigger] is_white(t[i]) by {
            assert(is_white(s[i]));
        }
        lemma_blank_has_no_words(t);
    }
}

/// To join the parts of two lists is to join those of each, with the separator between;
/// a single part is joined as it is.
pub proof fn law_joined_in_turn(a: Seq<Seq<char>>, b: Seq<Seq<char>>, sep: Seq<char>)
    ensures
        a.len() > 0 && b.len() > 0 ==> joined(a + b, sep) == joined(a, sep) + sep + joined(b, sep),
        a.len() == 0 ==> joined(a + b, sep) == joined(b, sep),
        b.len() == 0 ==> joined(a + b, sep) == joined(a, sep),
        a.len() == 1 ==> joined(a, sep) == a[0],
        a.len() == 0 ==> joined(a, sep).len() == 0,
    decreases b.len(),
{
    if a.len() == 0 {
        assert(a + b =~= b);
    } else if b.len() == 0 {
        assert(a + b =~= a);
    } else {
        assert((a + b).drop_last() =~= a + b.drop_last());
        law_joined_in_turn(a, b.drop_last(), sep);
        assert(joined(a + b, sep) =~= joined(a, sep) + sep + joined(b, sep));
    }
}

/// To collapse a text keeps its words, one space apart; a text that is one word, or two
/// with a space between, stays as it is.
pub proof fn law_collapsed_keeps_words(s: Seq<char>)
    ensures
        words(collapsed(s)) == words(s),
        one_line(collapsed(s)),
        collapsed(collapsed(s)) == collapsed(s),
{
    lemma_words_are_words(s);
    lemma_words_of_joined(words(s));
    lemma_joined_one_line(words(s));
}

/// The words of words with single spaces between them are those words.
pub proof fn lemma_words_of_joined(parts: Seq<Seq<char>>)
    requires
        all_words(parts),
    ensures
        words(joined(parts, seq![' '])) == parts,
    decreases parts.len(),
{
    if parts.len() == 1 {
        assert(is_word(parts[0]));
        lemma_word_is_its_words(parts[0]);
        assert(seq![parts[0]] =~= parts);
    } else if parts.len() > 1 {
        let rest = parts.drop_last();
        assert forall|i: int| 0 <= i < rest.len() implies #[trigger] is_word(rest[i]) by {
            assert(is_word(parts[i]));
        }
        lemma_words_of_joined(rest);
        assert(is_word(parts[parts.len() - 1]));
        lemma_words_parted(joined(rest, seq![' ']), ' ', parts.last());
        lemma_word_is_its_words(parts.last());
        assert(rest + seq![parts.last()] =~= parts);
    } else {
        assert(parts =~= seq![]);
    }
}

/// What one more character at the end of a text makes of its collapsed form.
pub proof fn lemma_collapsed_step(s: Seq<char>, c: char)
    ensures
        collapsed(s.push(c)) == if is_white(c) {
            collapsed(s)
        } else if s.len() > 0 && !is_white(s.last()) {
            collapsed(s).push(c)
        } else if words(s).len() > 0 {
            collapsed(s).push(' ').push(c)
        } else {
            seq![c]
        },
{
    let t = s.push(c);
    let gap = seq![' '];
    assert(t.drop_last() =~= s);
    lemma_words_are_words(s);
    if !is_white(c) {
        if s.len() > 0 && !is_white(s.last()) {
            let (front, end) = (words(s).drop_last(), words(s).last());
            assert(words(s) =~= front + seq![end]);
            assert(words(t) =~= front + seq![end.push(c)]);
            law_joined_in_turn(front, seq![end], gap);
            law_joined_in_turn(front, seq![end.push(c)], gap);
            law_joined_in_turn(seq![end], seq![], gap);
            law_joined_in_turn(seq![end.push(c)], seq![], gap);
            assert(collapsed(t) =~= collapsed(s).push(c));
        } else {
            assert(words(t) =~= words(s) + seq![seq![c]]);
            law_joined_in_turn(words(s), seq![seq![c]], gap);
            law_joined_in_turn(seq![seq![c]], seq![], gap);
            assert(words(s).len() > 0 ==> collapsed(t) =~= collapsed(s).push(' ').push(c));
        }
    }
}

/// A part of a text without white space stands in the collapsed form of the text, and at
/// its end where the part is at the end of the text.
pub proof fn lemma_collapsed_holds(s: Seq<char>, a: int, b: int)
    requires
        0 <= a < b <= s.len(),
        forall|i: int| a <= i < b ==> !is_white(#[trigger] s[i]),
    ensures
        occurs(collapsed(s), s.subrange(a, b)),
        b == s.len() ==> occurs_at(collapsed(s), s.subrange(a, b), collapsed(s).len() - (b - a)),
    decreases s.len(),
{
    let t = s.drop_last();
    let c = s.last();
    let part = s.subrange(a, b);
    assert(t.push(c) =~= s);
    lemma_collapsed_step(t, c);
    if b < s.len() {
        lemma_collapsed_holds(t, a, b);
        assert(t.subrange(a, b) =~= part);
        let at = choose|at: int| occurs_at(collapsed(t), part, at);
        assert(collapsed(s).subrange(at, at + part.len()) =~= part);
        assert(occurs_at(collapsed(s), part, at));
    } else {
        let at = collapsed(s).len() - (b - a);
        assert(!is_white(s[b - 1]));
        if a < b - 1 {
            lemma_collapsed_holds(t, a, b - 1);
            assert(t.last() == s[b - 2]);
            let front = t.subrange(a, b - 1);
            assert(collapsed(t).subrange(at, at + front.len()) == front);
            assert forall|i: int| 0 <= i < part.len() implies collapsed(s).subrange(
                at,
                at + part.len(),
            )[i] == part[i] by {
                if i < front.len() {
                    assert(collapsed(t).subrange(at, at + front.len())[i] == front[i]);
                }
            }
        }
        assert(collapsed(s).subrange(at, at + part.len()) =~= part);
        assert(occurs_at(collapsed(s), part, at));
    }
}

/// A character in front of a text that does not start with white space is in front of its
/// collapsed form, unless it is white space itself.
pub proof fn lemma_collapsed_front(c: char, s: Seq<char>)
    requires
        s.len() > 0 ==> !is_white(s[0]),
    ensures
        !is_white(c) ==> collapsed(seq![c] + s) == seq![c] + collapsed(s),
        !is_white(c) ==> words(seq![c] + s).len() > 0,
        is_white(c) ==> collapsed(seq![c] + s) == collapsed(s),
    decreases s.len(),
{
    let t = seq![c] + s;
    if is_white(c) {
        law_white_space_parts_words(Seq::empty(), c, s);
        assert(Seq::<char>::empty() + seq![c] + s =~= t);
        assert(words(Seq::empty()) + words(s) =~= words(s));
    } else if s.len() == 0 {
        assert(t =~= Seq::<char>::empty().push(c));
        lemma_collapsed_step(Seq::empty(), c);
        assert(collapsed(s) =~= Seq::empty());
        assert(seq![c] + collapsed(s) =~= seq![c]);
        assert(is_word(t));
        lemma_word_is_its_words(t);
    } else {
        let front = s.drop_last();
        let d = s.last();
        assert(front.len() > 0 ==> front[0] == s[0]);
        lemma_collapsed_front(c, front);
        assert(t =~= (seq![c] + front).push(d));
        assert(s =~= front.push(d));
        lemma_collapsed_step(seq![c] + front, d);
        lemma_collapsed_step(front, d);
        lemma_words_are_words(t);
        assert((seq![c] + front).drop_last().len() >= 0);
        assert(t.drop_last() =~= seq![c] + front);
        lemma_first_word(front);
        if front.len() == 0 {
            assert(front =~= Seq::empty());
            assert((seq![c] + front).last() == c);
            assert(collapsed(front) =~= Seq::empty());
        } else {
            assert((seq![c] + front).last() == front.last());
        }
        assert(collapsed(t) =~= seq![c] + collapsed(s));
    }
}

/// A text that does not start with white space has a word.
proof fn lemma_first_word(s: Seq<char>)
    requires
        s.len() > 0 ==> !is_white(s[0]),
    ensures
        s.len() > 0 ==> words(s).len() > 0,
    decreases s.len(),
{
    if s.len() > 0 {
        lemma_words_are_words(s);
        if s.len() > 1 {
            assert(s.drop_last()[0] == s[0]);
            lemma_first_word(s.drop_last());
        }
    }
}

/// Trimming keeps the words of a text.
pub proof fn lemma_trimmed_words(s: Seq<char>)
    ensures
        words(trimmed(s)) == words(s),
{
    law_trimmed(s);
    let (a, b) = choose|a: Seq<char>, b: Seq<char>|
        is_blank(a) && is_blank(b) && s == #[trigger] (a + trimmed(s) + b);
    lemma_blank_around(a, trimmed(s), b);
}

proof fn lemma_blank_around(a: Seq<char>, s: Seq<char>, b: Seq<char>)
    requires
        is_blank(a),
        is_blank(b),
    ensures
        words(a + s + b) == words(s),
    decreases a.len() + b.len(),
{
    if b.len() > 0 {
        let rest = b.drop_last();
        assert forall|i: int| 0 <= i < rest.len() implies #[trigger] is_white(rest[i]) by {
            assert(is_white(b[i]));
        }
        lemma_blank_around(a, s, rest);
        assert((a + s + b).drop_last() =~= a + s + rest);
        assert(is_white(b[b.len() - 1]));
    } else if a.len() > 0 {
        let rest = a.drop_first();
        assert forall|i: int| 0 <= i < rest.len() implies #[trigger] is_white(rest[i]) by {
            assert(is_white(a[i + 1]));
        }
        lemma_blank_around(rest, s, b);
        assert(is_white(a[0]));
        law_white_space_parts_words(Seq::empty(), a[0], rest + s + b);
        assert(Seq::<char>::empty() + seq![a[0]] + (rest + s + b) =~= a + s + b);
        assert(words(Seq::empty()) + words(rest + s + b) =~= words(rest + s + b));
    } else {
        assert(a + s + b =~= s);
    }
}

/// The words of an ASCII text are ASCII.
pub proof fn lemma_ascii_words(s: Seq<char>)
    requires
        is_ascii_chars(s),
    ensures
        forall|i: int| 0 <= i < words(s).len() ==> is_ascii_chars(#[trigger] words(s)[i]),
    decreases s.len(),
{
    if s.len() > 0 {
        let t = s.drop_last();
        assert forall|i: int| 0 <= i < t.len() implies '\0' <= #[trigger] t[i] <= '\u{7f}' by {
            assert(t[i] == s[i]);
        }
        lemma_ascii_words(t);
        lemma_words_are_words(t);
        assert(s[s.len() - 1] == s.last());
    }
}

/// Trimming takes the white space off both ends of a text and nothing else: what is left
/// is the text between two blank ones, and has no white space at either end.
pub proof fn law_trimmed(s: Seq<char>)
    ensures
        trimmed(s).len() == 0 || is_edged(trimmed(s)),
        exists|a: Seq<char>, b: Seq<char>|
            is_blank(a) && is_blank(b) && s == #[trigger] (a + trimmed(s) + b),
{
    let (a, mid) = lemma_trim_start(s);
    let b = lemma_trim_end(mid);
    assert(s =~= a + trimmed(s) + b);
    let t = trimmed(s);
    if t.len() > 0 {
        assert(mid =~= t + b);
        assert(mid[0] == t[0]);
    }
}

proof fn lemma_trim_start(s: Seq<char>) -> (r: (Seq<char>, Seq<char>))
    ensures
        is_blank(r.0),
        s == r.0 + r.1,
        r.1 == trim_start(s),
        r.1.len() > 0 ==> !is_white(r.1[0]),
    decreases s.len(),
{
    if s.len() > 0 && is_white(s[0]) {
        let (a, t) = lemma_trim_start(s.drop_first());
        let front = seq![s[0]] + a;
        assert forall|i: int| 0 <= i < front.len() implies #[trigger] is_white(front[i]) by {
            if i > 0 {
                assert(is_white(a[i - 1]));
            }
        }
        assert(s =~= seq![s[0]] + s.drop_first());
        assert(s =~= front + t);
        (front, t)
    } else {
        assert(s =~= Seq::empty() + s);
        (Seq::empty(), s)
    }
}

proof fn lemma_trim_end(s: Seq<char>) -> (b: Seq<char>)
    ensures
        is_blank(b),
        s == trim_end(s) + b,
        trim_end(s).len() > 0 ==> !is_white(trim_end(s).last()),
    decreases s.len(),
{
    if s.len() > 0 && is_white(s.last()) {
        let a = lemma_trim_end(s.drop_last());
        let back = a.push(s.last());
        assert forall|i: int| 0 <= i < back.len() implies #[trigger] is_white(back[i]) by {
            if i < a.len() {
                assert(is_white(a[i]));
            }
        }
        assert(s =~= s.drop_last().push(s.last()));
        assert(s =~= trim_end(s) + back);
        back
    } else {
        assert(s =~= s + Seq::empty());
        Seq::empty()
    }
}

/// Whether a text stands in another on lines of its own.
pub open spec fn holds_line(s: Seq<char>, line: Seq<char>) -> bool {
    exists|at: int| #[trigger] line_at(s, line, at)
}

/// Whether a text stands in another at position `at`, on lines of its own: at its front
/// or after the end of a line, and at its end or before the end of a line.
pub open spec fn line_at(s: Seq<char>, line: Seq<char>, at: int) -> bool {
    &&& occurs_at(s, line, at)
    &&& at == 0 || s[at - 1] == '\n'
    &&& at + line.len() == s.len() || s[at + line.len()] == '\n'
}

/// Parts that are joined by ends of lines stand on lines of their own, in order.
pub proof fn lemma_joined_holds(a: Seq<Seq<char>>, b: Seq<Seq<char>>, c: Seq<Seq<char>>)
    requires
        b.len() > 0,
    ensures
        holds_line(joined(a + b + c, seq!['\n']), joined(b, seq!['\n'])),
{
    let end = seq!['\n'];
    law_joined_in_turn(a + b, c, end);
    law_joined_in_turn(a, b, end);
    let s = joined(a + b + c, end);
    let line = joined(b, end);
    let at: int = if a.len() > 0 {
        joined(a, end).len() as int + 1
    } else {
        0
    };
    assert(s.subrange(at, at + line.len()) =~= line);
    assert(line_at(s, line, at));
}

/// Trimming makes no text longer.
pub proof fn lemma_trimmed_len(s: Seq<char>)
    ensures
        trimmed(s).len() <= s.len(),
{
    lemma_trim_start_len(s);
    lemma_trim_end_len(trim_start(s));
}

proof fn lemma_trim_start_len(s: Seq<char>)
    ensures
        trim_start(s).len() <= s.len(),
    decreases s.len(),
{
    if s.len() > 0 && is_white(s[0]) {
        lemma_trim_start_len(s.drop_first());
    }
}

proof fn lemma_trim_end_len(s: Seq<char>)
    ensures
        trim_end(s).len() <= s.len(),
    decreases s.len(),
{
    if s.len() > 0 && is_white(s.last()) {
        lemma_trim_end_len(s.drop_last());
    }
}

/// Whether `needle` stands in `hay` at position `at`.
pub open spec fn occurs_at<A>(hay: Seq<A>, needle: Seq<A>, at: int) -> bool {
    0 <= at && at + needle.len() <= hay.len() && hay.subrange(at, at + needle.len()) == needle
}

/// Whether `needle` stands anywhere in `hay`.
pub open spec fn occurs<A>(hay: Seq<A>, needle: Seq<A>) -> bool {
    exists|at: int| occurs_at(hay, needle, at)
}

/// Whether `at` is where `needle` stands first in `hay`.
pub open spec fn first_occurs_at<A>(hay: Seq<A>, needle: Seq<A>, at: int) -> bool {
    occurs_at(hay, needle, at) && forall|k: int| 0 <= k < at ==> !#[trigger] occurs_at(hay, needle, k)
}

/// How many bytes a character takes in UTF-8.
pub open spec fn width(c: char) -> nat {
    if (c as u32) < 0x80 {
        1
    } else if (c as u32) < 0x800 {
        2
    } else if (c as u32) < 0x10000 {
        3
    } else {
        4
    }
}

/// How many bytes a text takes in UTF-8.
pub open spec fn byte_len(s: Seq<char>) -> nat
    decreases s.len(),
{
    if s.len() == 0 {
        0
    } else {
        byte_len(s.drop_last()) + width(s.last())
    }
}

/// The bytes of two texts, one after the other, are those of each in turn.
pub proof fn lemma_utf8_concat(a: Seq<char>, b: Seq<char>)
    ensures
        encode_utf8(a + b) == encode_utf8(a) + encode_utf8(b),
    decreases a.len(),
{
    if a.len() == 0 {
        assert(a + b =~= b);
        assert(encode_utf8(a) =~= seq![]);
        assert(seq![] + encode_utf8(b) =~= encode_utf8(b));
    } else {
        assert((a + b).drop_first() =~= a.drop_first() + b);
        lemma_utf8_concat(a.drop_first(), b);
        assert(encode_utf8(a + b) =~= encode_utf8(a) + encode_utf8(b));
    }
}

/// A text takes as many bytes as it has in UTF-8.
pub proof fn lemma_byte_len(s: Seq<char>)
    ensures
        byte_len(s) == encode_utf8(s).len(),
    decreases s.len(),
{
    if s.len() > 0 {
        let c = s.last();
        lemma_byte_len(s.drop_last());
        assert(s =~= s.drop_last() + seq![c]);
        lemma_utf8_concat(s.drop_last(), seq![c]);
        assert(seq![c].drop_first() =~= Seq::<char>::empty());
        reveal_with_fuel(encode_utf8, 2);
        char_is_scalar(c);
        assert(encode_utf8(seq![c]).len() == width(c));
    }
}

/// A longer prefix takes more bytes, at least one for each character.
pub proof fn lemma_byte_len_take(s: Seq<char>, a: int, b: int)
    requires
        0 <= a <= b <= s.len(),
    ensures
        byte_len(s.take(a)) + (b - a) <= byte_len(s.take(b)),
    decreases b - a,
{
    if a < b {
        lemma_byte_len_take(s, a, b - 1);
        assert(s.take(b).drop_last() =~= s.take(b - 1));
    }
}

/// Two texts of the same UTF-8 bytes are the same text.
pub proof fn lemma_utf8_injective(a: Seq<char>, b: Seq<char>)
    requires
        encode_utf8(a) == encode_utf8(b),
    ensures
        a == b,
{
    encode_utf8_decode_utf8(a);
    encode_utf8_decode_utf8(b);
}

/// Whether two texts are equal.
pub fn same(a: &str, b: &str) -> (r: bool)
    ensures
        r == (a@ == b@),
{
    let x = a.as_bytes();
    let y = b.as_bytes();
    if x.len() != y.len() {
        return false;
    }
    let mut i: usize = 0;
    while i < x.len()
        invariant
            i <= x.len(),
            x@.len() == y@.len(),
            x@ == encode_utf8(a@),
            y@ == encode_utf8(b@),
            forall|k: int| 0 <= k < i ==> x@[k] == y@[k],
        decreases x.len() - i,
    {
        if x[i] != y[i] {
            assert(a@ != b@);
            return false;
        }
        i += 1;
    }
    proof {
        assert(x@ =~= y@);
        lemma_utf8_injective(a@, b@);
    }
    true
}

/// The characters of a text.
pub fn chars_of(s: &str) -> (r: Vec<char>)
    ensures
        r@ == s@,
{
    let mut out: Vec<char> = Vec::new();
    for c in it: s.chars()
        invariant
            out@ == it.seq().take(it.index()),
            it.seq() == s@,
    {
        out.push(c);
    }
    out
}

/// Whether a text is empty.
pub fn is_nothing(s: &str) -> (r: bool)
    ensures
        r == (s@.len() == 0),
{
    proof {
        lemma_byte_len(s@);
        if s@.len() > 0 {
            lemma_byte_len_take(s@, 0, s@.len() as int);
            assert(s@.take(s@.len() as int) =~= s@);
        }
    }
    s.as_bytes().len() == 0
}

/// How many bytes a text takes in UTF-8.
pub fn size_of(s: &str) -> (r: u128)
    ensures
        r == byte_len(s@),
        r <= u64::MAX,
{
    proof {
        lemma_byte_len(s@);
    }
    s.as_bytes().len() as u128
}

/// A text with its ASCII capitals in lowercase.
pub fn ascii_lowercase_of(s: &str) -> (r: String)
    ensures
        r@ == ascii_lowercase(s@),
{
    let v = chars_of(s);
    let mut out = String::new();
    let mut i: usize = 0;
    while i < v.len()
        invariant
            i <= v.len(),
            v@ == s@,
            out@ == ascii_lowercase(s@.take(i as int)),
        decreases v.len() - i,
    {
        let c: char = v[i];
        let low: char = if 'A' <= c && c <= 'Z' {
            ((c as u8) + 32u8) as char
        } else {
            c
        };
        out.push(low);
        assert(out@ =~= ascii_lowercase(s@.take(i + 1)));
        i += 1;
    }
    assert(s@.take(i as int) =~= s@);
    out
}

/// The text that `v` holds from position `from` up to, not including, `to`.
pub fn string_of(v: &Vec<char>, from: usize, to: usize) -> (r: String)
    requires
        from <= to <= v.len(),
    ensures
        r@ == v@.subrange(from as int, to as int),
{
    let mut out = String::new();
    let mut i: usize = from;
    while i < to
        invariant
            from <= i <= to <= v.len(),
            out@ == v@.subrange(from as int, i as int),
        decreases to - i,
    {
        out.push(v[i]);
        assert(v@.subrange(from as int, i + 1) =~= v@.subrange(from as int, i as int).push(v@[i as int]));
        i += 1;
    }
    out
}

/// The texts that a vector of strings holds.
pub open spec fn views(v: Seq<String>) -> Seq<Seq<char>> {
    v.map_values(|s: String| s@)
}

/// The text that an optional string holds.
pub open spec fn view_of(s: Option<String>) -> Option<Seq<char>> {
    match s {
        Some(t) => Some(t@),
        None => None,
    }
}

/// The same text as a string of its own.
pub fn owned(s: Option<&str>) -> (r: Option<String>)
    ensures
        match s {
            Some(t) => view_of(r) == Some(t@),
            None => r is None,
        },
{
    match s {
        Some(t) => Some(t.to_string()),
        None => None,
    }
}

/// The text, or another where it is missing.
pub fn owned_or(s: Option<&str>, other: &str) -> (r: String)
    ensures
        r@ == match s {
            Some(t) => t@,
            None => other@,
        },
{
    match s {
        Some(t) => t.to_string(),
        None => other.to_string(),
    }
}

/// Whether a text holds nothing but white space.
pub fn blank(s: &str) -> (r: bool)
    ensures
        r == is_blank(s@),
{
    let v = chars_of(s);
    let mut i: usize = 0;
    while i < v.len()
        invariant
            i <= v.len(),
            v@ == s@,
            forall|k: int| 0 <= k < i ==> #[trigger] is_white(v@[k]),
        decreases v.len() - i,
    {
        if !v[i].is_whitespace() {
            assert(!is_white(s@[i as int]));
            return false;
        }
        i += 1;
    }
    true
}

/// A text without the white space at either end.
pub fn trim(s: &str) -> (r: String)
    ensures
        r@ == trimmed(s@),
{
    let v = chars_of(s);
    let mut from: usize = 0;
    assert(v@.skip(0) =~= v@);
    while from < v.len() && v[from].is_whitespace()
        invariant
            from <= v.len(),
            trim_start(v@) == trim_start(v@.skip(from as int)),
        decreases v.len() - from,
    {
        assert(v@.skip(from as int).drop_first() =~= v@.skip(from + 1));
        from += 1;
    }
    assert(trim_start(v@) == v@.skip(from as int));
    let mut to: usize = v.len();
    assert(v@.subrange(from as int, to as int) =~= v@.skip(from as int));
    while from < to && v[to - 1].is_whitespace()
        invariant
            from <= to <= v.len(),
            trimmed(v@) == trim_end(v@.subrange(from as int, to as int)),
        decreases to,
    {
        assert(v@.subrange(from as int, to as int).drop_last() =~= v@.subrange(
            from as int,
            to - 1,
        ));
        to -= 1;
    }
    string_of(&v, from, to)
}

/// The words of a text, in order.
pub fn split_words(s: &str) -> (r: Vec<String>)
    ensures
        views(r@) == words(s@),
{
    let v = chars_of(s);
    let mut done: Vec<String> = Vec::new();
    let mut open = String::new();
    let mut in_word: bool = false;
    let mut i: usize = 0;
    assert(views(done@) =~= words(v@.take(0)));
    while i < v.len()
        invariant
            i <= v.len(),
            in_word == (i > 0 && !is_white(v@[i - 1])),
            !in_word ==> open@.len() == 0 && words(v@.take(i as int)) == views(done@),
            in_word ==> words(v@.take(i as int)) == views(done@).push(open@),
        decreases v.len() - i,
    {
        let c: char = v[i];
        let ghost before = words(v@.take(i as int));
        assert(v@.take(i + 1).drop_last() =~= v@.take(i as int));
        assert(v@.take(i + 1).last() == c);
        if c.is_whitespace() {
            if in_word {
                done.push(open);
                open = String::new();
                in_word = false;
                assert(views(done@) =~= before);
            }
        } else {
            let ghost opened = open@;
            open.push(c);
            proof {
                if in_word {
                    assert(v@.take(i + 1)[i - 1] == v@[i - 1]);
                    assert(before.drop_last() =~= views(done@));
                } else {
                    assert(open@ =~= seq![c]);
                }
            }
            in_word = true;
        }
        i += 1;
    }
    assert(v@.take(i as int) =~= s@);
    if in_word {
        let ghost before = views(done@);
        let ghost last = open@;
        done.push(open);
        assert(views(done@) =~= before.push(last));
    }
    done
}

/// The parts in order, with `sep` between each two of them.
pub fn join(parts: &Vec<String>, sep: &str) -> (r: String)
    ensures
        r@ == joined(views(parts@), sep@),
{
    let mut out = String::new();
    let mut i: usize = 0;
    let ghost all = views(parts@);
    while i < parts.len()
        invariant
            i <= parts.len(),
            all == views(parts@),
            out@ == joined(all.take(i as int), sep@),
        decreases parts.len() - i,
    {
        if i > 0 {
            out.append(sep);
        }
        out.append(parts[i].as_str());
        proof {
            assert(all.take(i + 1).drop_last() =~= all.take(i as int));
            assert(all.take(i + 1).last() == parts@[i as int]@);
            if i == 0 {
                assert(out@ =~= parts@[0]@);
            }
        }
        i += 1;
    }
    assert(all.take(i as int) =~= all);
    out
}

/// The words of a text with one space between each two of them.
pub fn collapse(s: &str) -> (r: String)
    ensures
        r@ == collapsed(s@),
{
    let parts = split_words(s);
    proof {
        reveal_strlit(" ");
        assert(" "@ =~= seq![' ']);
    }
    join(&parts, " ")
}

/// Where `needle` stands first in `hay`, if it does.
pub fn find(hay: &Vec<char>, needle: &Vec<char>) -> (r: Option<usize>)
    ensures
        match r {
            Some(at) => first_occurs_at(hay@, needle@, at as int),
            None => !occurs(hay@, needle@),
        },
{
    if needle.len() > hay.len() {
        return None;
    }
    let size: usize = hay.len();
    let last: usize = size - needle.len();
    let mut at: usize = 0;
    loop
        invariant
            at <= last,
            size == hay@.len(),
            last == size - needle@.len(),
            forall|k: int| 0 <= k < at ==> !#[trigger] occurs_at(hay@, needle@, k),
        decreases last - at,
    {
        let mut n: usize = 0;
        while n < needle.len() && hay[at + n] == needle[n]
            invariant
                n <= needle.len(),
                at <= last,
                size == hay@.len(),
                last == size - needle@.len(),
                forall|k: int| 0 <= k < n ==> hay@[at + k] == needle@[k],
            decreases needle.len() - n,
        {
            n += 1;
        }
        if n == needle.len() {
            assert(hay@.subrange(at as int, at + needle@.len()) =~= needle@);
            return Some(at);
        }
        assert(!occurs_at(hay@, needle@, at as int)) by {
            if occurs_at(hay@, needle@, at as int) {
                assert(hay@.subrange(at as int, at + needle@.len())[n as int] == needle@[n as int]);
            }
        }
        if at == last {
            return None;
        }
        at += 1;
    }
}

/// A text stands in another exactly where the other is something before it, the text, and
/// something after it.
pub proof fn law_occurs(hay: Seq<char>, needle: Seq<char>, before: Seq<char>, after: Seq<char>)
    ensures
        occurs(before + needle + after, needle),
        occurs(hay, needle) ==> exists|a: Seq<char>, b: Seq<char>| hay == #[trigger] (a + needle + b),
{
    let whole = before + needle + after;
    let at = before.len() as int;
    assert(whole.subrange(at, at + needle.len()) =~= needle);
    assert(occurs_at(whole, needle, at));
    if occurs(hay, needle) {
        let k = choose|k: int| occurs_at(hay, needle, k);
        let (a, b) = (hay.take(k), hay.skip(k + needle.len()));
        assert forall|i: int| 0 <= i < hay.len() implies hay[i] == (a + needle + b)[i] by {
            if k <= i < k + needle.len() {
                assert(hay.subrange(k, k + needle.len())[i - k] == hay[i]);
            }
        }
        assert(hay =~= a + needle + b);
    }
}

/// The bytes of two texts are those of each, and a character of ASCII takes one.
pub proof fn law_bytes_add_up(a: Seq<char>, b: Seq<char>)
    ensures
        byte_len(a + b) == byte_len(a) + byte_len(b),
        byte_len(Seq::empty()) == 0,
        is_ascii_chars(a) ==> byte_len(a) == a.len(),
        a.len() <= byte_len(a) <= 4 * a.len(),
        byte_len(a) == encode_utf8(a).len(),
{
    lemma_byte_len(a);
    lemma_byte_len(b);
    lemma_byte_len(a + b);
    lemma_utf8_concat(a, b);
    if is_ascii_chars(a) {
        is_ascii_chars_encode_utf8(a);
    }
    lemma_byte_bounds(a);
}

proof fn lemma_byte_bounds(s: Seq<char>)
    ensures
        s.len() <= byte_len(s) <= 4 * s.len(),
    decreases s.len(),
{
    if s.len() > 0 {
        lemma_byte_bounds(s.drop_last());
    }
}

/// White space among the characters of ASCII is the space and the five controls from tab
/// to carriage return; a capital of ASCII is lowered to its letter, thirty-two further on,
/// and nothing else of ASCII is changed.
pub proof fn law_ascii_characters(c: char)
    requires
        (c as u32) < 128,
    ensures
        is_white(c) <==> c == ' ' || c == '\t' || c == '\n' || c as u32 == 11 || c as u32 == 12
            || c == '\r',
        65 <= c as u32 <= 90 ==> ascii_lower(c) as u32 == c as u32 + 32,
        !(65 <= c as u32 <= 90) ==> ascii_lower(c) == c,
        lowercase(seq![c]) == seq![ascii_lower(c)],
        is_upper(c) <==> 65 <= c as u32 <= 90,
        is_lower(c) <==> 97 <= c as u32 <= 122,
        is_letter(c) <==> is_upper(c) || is_lower(c),
        is_digit(c) <==> 48 <= c as u32 <= 57,
        is_letter_or_number(c) <==> is_letter(c) || is_digit(c),
{
    assert(is_ascii_chars(seq![c]));
    assert(ascii_lowercase(seq![c]) =~= seq![ascii_lower(c)]);
}

/// A text is blank where all of its characters are white space, which is where it has no
/// words and where nothing is left of it when it is trimmed.
pub proof fn law_blank(a: Seq<char>, b: Seq<char>, c: char)
    ensures
        is_blank(Seq::empty()),
        is_blank(seq![c]) <==> is_white(c),
        is_blank(a + b) <==> is_blank(a) && is_blank(b),
        is_blank(a) <==> words(a).len() == 0,
        is_blank(a) <==> trimmed(a).len() == 0,
{
    if is_blank(seq![c]) {
        assert(is_white(seq![c][0]));
    }
    if is_blank(a + b) {
        assert forall|i: int| 0 <= i < a.len() implies #[trigger] is_white(a[i]) by {
            assert(is_white((a + b)[i]));
        }
        assert forall|i: int| 0 <= i < b.len() implies #[trigger] is_white(b[i]) by {
            assert(is_white((a + b)[a.len() + i]));
        }
    }
    lemma_wordless_is_blank(a);
    if is_blank(a) {
        lemma_blank_has_no_words(a);
    }
    lemma_trimmed_words(a);
    law_trimmed(a);
    let t = trimmed(a);
    if t.len() > 0 {
        lemma_first_word(t);
    } else {
        assert(t =~= Seq::empty());
    }
}

/// A text without words is blank.
proof fn lemma_wordless_is_blank(s: Seq<char>)
    ensures
        words(s).len() == 0 ==> is_blank(s),
    decreases s.len(),
{
    if s.len() > 0 {
        let t = s.drop_last();
        lemma_wordless_is_blank(t);
        lemma_words_are_words(s);
        if words(s).len() == 0 {
            assert(is_white(s.last()));
            assert forall|i: int| 0 <= i < s.len() implies #[trigger] is_white(s[i]) by {
                if i < t.len() {
                    assert(is_white(t[i]));
                }
            }
        }
    }
}

/// The texts of a list of strings are those of its strings, each in its place, and the text
/// of a string that may be missing is that of the string.
pub proof fn law_texts_of_strings(v: Seq<String>, i: int, s: String)
    ensures
        views(v).len() == v.len(),
        0 <= i < v.len() ==> views(v)[i] == v[i]@,
        view_of(Some(s)) == Some(s@),
        view_of(None) is None,
{
}

/// A text keeps its length when its ASCII capitals are lowered, and each of its characters
/// its place: the lowered text is that of its parts in turn.
pub proof fn law_lowered_in_place(a: Seq<char>, b: Seq<char>, i: int)
    ensures
        ascii_lowercase(a).len() == a.len(),
        0 <= i < a.len() ==> ascii_lowercase(a)[i] == if 'A' <= a[i] && a[i] <= 'Z' {
            ((a[i] as u32) + 32) as char
        } else {
            a[i]
        },
        ascii_lowercase(a + b) == ascii_lowercase(a) + ascii_lowercase(b),
        is_ascii_chars(a) ==> lowercase(a) == ascii_lowercase(a),
{
    assert(ascii_lowercase(a + b) =~= ascii_lowercase(a) + ascii_lowercase(b));
}

} // verus!
