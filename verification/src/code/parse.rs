//! Prepares the content of a source file for indexing, so that a query for one
//! word of an identifier finds the file.

use vstd::prelude::*;
use crate::store;
use crate::text;
use crate::text::chars_of;

verus! {

/// The characters that identifiers are made of.
pub open spec fn is_word_char(c: char) -> bool {
    text::is_letter_or_number(c) || c == '_'
}

/// Whether a word begins at position `i` of a text, in the middle of an
/// identifier: at a capital after a lowercase character, between a digit and a
/// letter, and at the last of two or more capitals that a lowercase character
/// follows.
pub open spec fn boundary(s: Seq<char>, i: int) -> bool {
    0 < i < s.len() && {
        let p = s[i - 1];
        let c = s[i];
        ||| is_word_char(p) && text::is_lower(p) && text::is_upper(c)
        ||| text::is_digit(p) && text::is_letter(c)
        ||| text::is_letter(p) && text::is_digit(c)
        ||| text::is_upper(p) && text::is_upper(c) && i + 1 < s.len() && text::is_lower(s[i + 1])
    }
}

/// The first `n` characters of a text, with a space at each boundary among them.
pub open spec fn split_to(s: Seq<char>, n: int) -> Seq<char>
    decreases n,
{
    if n <= 0 {
        seq![]
    } else if boundary(s, n - 1) {
        split_to(s, n - 1).push(' ').push(s[n - 1])
    } else {
        split_to(s, n - 1).push(s[n - 1])
    }
}

/// A text with a space at each boundary.
pub open spec fn split(s: Seq<char>) -> Seq<char> {
    split_to(s, s.len() as int)
}

/// A text, followed by a space and its split form where that differs.
pub open spec fn expanded(s: Seq<char>) -> Seq<char> {
    if split(s) == s {
        s
    } else {
        s + seq![' '] + split(s)
    }
}

/// Whether identifiers are made of this character.
fn is_word(c: char) -> (r: bool)
    ensures
        r == is_word_char(c),
{
    c.is_alphanumeric() || c == '_'
}

/// Whether a character is an ASCII digit.
fn is_ascii_digit(c: char) -> (r: bool)
    ensures
        r == text::is_digit(c),
{
    '0' <= c && c <= '9'
}

/// Puts a space at each camelCase and PascalCase boundary of a text and leaves
/// its characters as they are.
pub fn split_camel(s: &str) -> (r: String)
    ensures
        r@ == split(s@),
{
    let chars = chars_of(s);
    let mut out = String::new();
    let mut i: usize = 0;
    while i < chars.len()
        invariant
            i <= chars.len(),
            chars@ == s@,
            out@ == split_to(s@, i as int),
        decreases chars.len() - i,
    {
        let c: char = chars[i];
        let should_split: bool = if i == 0 {
            false
        } else {
            let p: char = chars[i - 1];
            if is_word(p) && p.is_lowercase() && c.is_uppercase() {
                true
            } else if is_ascii_digit(p) && c.is_alphabetic() {
                true
            } else if p.is_alphabetic() && is_ascii_digit(c) {
                true
            } else {
                p.is_uppercase() && c.is_uppercase() && i + 1 < chars.len()
                    && chars[i + 1].is_lowercase()
            }
        };
        if should_split {
            out.push(' ');
        }
        out.push(c);
        i += 1;
    }
    out
}

/// The text to index for a source file: the content, and after a space its split
/// form where that differs, so that whole identifiers and their words are both
/// found.
pub fn expand_identifiers(s: &str) -> (r: String)
    ensures
        r@ == expanded(s@),
{
    let expanded_form = split_camel(s);
    if text::same(expanded_form.as_str(), s) {
        s.to_string()
    } else {
        let mut out = s.to_string();
        out.push(' ');
        out.append(expanded_form.as_str());
        assert(out@ =~= s@ + seq![' '] + split(s@));
        out
    }
}

/// A text without its spaces.
pub open spec fn unspaced(s: Seq<char>) -> Seq<char> {
    s.filter(|c: char| c != ' ')
}

/// Splitting adds spaces and nothing else: without spaces, the text and its split
/// form are the same.
pub proof fn law_split_keeps_characters(s: Seq<char>)
    ensures
        unspaced(split(s)) == unspaced(s),
{
    lemma_split_to_keeps(s, s.len() as int);
    assert(s.take(s.len() as int) =~= s);
}

proof fn lemma_split_to_keeps(s: Seq<char>, n: int)
    requires
        0 <= n <= s.len(),
    ensures
        unspaced(split_to(s, n)) == unspaced(s.take(n)),
    decreases n,
{
    broadcast use Seq::lemma_filter_push;

    if n > 0 {
        lemma_split_to_keeps(s, n - 1);
        let before = split_to(s, n - 1);
        let c = s[n - 1];
        assert(s.take(n) =~= s.take(n - 1).push(c));
        let keep = |c: char| c != ' ';
        before.lemma_filter_push(' ', keep);
        before.push(' ').lemma_filter_push(c, keep);
        before.lemma_filter_push(c, keep);
        s.take(n - 1).lemma_filter_push(c, keep);
    } else {
        assert(s.take(n) =~= seq![]);
    }
}

/// What is indexed for a text begins with the text itself.
pub proof fn law_expanded_begins_with_text(s: Seq<char>)
    ensures
        s.is_prefix_of(expanded(s)),
{
}

/// What is indexed for a text holds its split form.
pub proof fn law_expanded_holds_split(s: Seq<char>)
    ensures
        text::occurs(expanded(s), split(s)),
{
    if split(s) == s {
        assert(s.subrange(0, s.len() as int) =~= s);
        assert(text::occurs_at(expanded(s), split(s), 0));
    } else {
        let at = s.len() as int + 1;
        assert(expanded(s).subrange(at, at + split(s).len()) =~= split(s));
        assert(text::occurs_at(expanded(s), split(s), at));
    }
}

/// A text is indexed as it is exactly where it has no boundary.
pub proof fn law_expanded_is_text_without_boundary(s: Seq<char>)
    ensures
        expanded(s) == s <==> forall|i: int| !#[trigger] boundary(s, i),
{
    lemma_split_len(s, s.len() as int);
    if forall|i: int| !#[trigger] boundary(s, i) {
        lemma_split_none(s, s.len() as int);
        assert(s.take(s.len() as int) =~= s);
    } else {
        let i = choose|i: int| #[trigger] boundary(s, i);
        lemma_split_grows(s, i, s.len() as int);
        if expanded(s) == s {
            assert(split(s).len() > s.len());
        }
    }
}

proof fn lemma_split_len(s: Seq<char>, n: int)
    requires
        0 <= n <= s.len(),
    ensures
        split_to(s, n).len() >= n,
    decreases n,
{
    if n > 0 {
        lemma_split_len(s, n - 1);
    }
}

proof fn lemma_split_none(s: Seq<char>, n: int)
    requires
        0 <= n <= s.len(),
        forall|i: int| !#[trigger] boundary(s, i),
    ensures
        split_to(s, n) == s.take(n),
    decreases n,
{
    if n > 0 {
        lemma_split_none(s, n - 1);
        assert(s.take(n) =~= s.take(n - 1).push(s[n - 1]));
    }
}

proof fn lemma_split_grows(s: Seq<char>, i: int, n: int)
    requires
        boundary(s, i),
        i < n <= s.len(),
    ensures
        split_to(s, n).len() > n,
    decreases n,
{
    if i < n - 1 {
        lemma_split_grows(s, i, n - 1);
    } else {
        lemma_split_len(s, n - 1);
    }
}

/// The split form has no boundary left: splitting it again changes nothing.
pub proof fn law_split_is_idempotent(s: Seq<char>)
    ensures
        split(split(s)) == split(s),
{
    let r = split(s);
    assert forall|j: int| !#[trigger] boundary(r, j) by {
        if boundary(r, j) {
            lemma_split_len(s, s.len() as int);
            let i = lemma_split_at(s, s.len() as int, j);
            lemma_no_boundary(s, i, j);
        }
    }
    lemma_split_none(r, r.len() as int);
    assert(r.take(r.len() as int) =~= r);
}

/// The split form of a prefix is a prefix of the split form.
proof fn lemma_split_prefix(s: Seq<char>, a: int, b: int)
    requires
        0 <= a <= b <= s.len(),
    ensures
        split_to(s, a).is_prefix_of(split_to(s, b)),
    decreases b - a,
{
    if a < b {
        lemma_split_prefix(s, a, b - 1);
    }
}

/// Which character of a text, or the space before it, stands at a position of
/// its split form.
proof fn lemma_split_at(s: Seq<char>, n: int, j: int) -> (i: int)
    requires
        0 <= n <= s.len(),
        0 <= j < split_to(s, n).len(),
    ensures
        0 <= i < n,
        split_to(s, i).len() <= j < split_to(s, i + 1).len(),
    decreases n,
{
    if j >= split_to(s, n - 1).len() {
        n - 1
    } else {
        lemma_split_at(s, n - 1, j)
    }
}

proof fn lemma_no_boundary(s: Seq<char>, i: int, j: int)
    requires
        0 <= i < s.len(),
        split_to(s, i).len() <= j < split_to(s, i + 1).len(),
    ensures
        !boundary(split(s), j),
{
    let r = split(s);
    let m = split_to(s, i).len() as int;
    lemma_split_prefix(s, i, s.len() as int);
    lemma_split_prefix(s, i + 1, s.len() as int);
    lemma_split_len(s, i);
    let upto = split_to(s, i + 1);
    assert(r[j] == upto[j]);
    if i > 0 {
        assert(r[m - 1] == split_to(s, i)[m - 1]);
        assert(r[m - 1] == s[i - 1]);
    }
    if boundary(s, i) {
        assert(r[m] == upto[m] && upto[m] == ' ');
        assert(r[m + 1] == upto[m + 1]);
    } else {
        assert(j == m);
        assert(r[m] == s[i]);
        if i + 1 < s.len() {
            let next = split_to(s, i + 2);
            lemma_split_prefix(s, i + 2, s.len() as int);
            assert(r[m + 1] == next[m + 1]);
            assert(r[m + 1] == s[i + 1] || r[m + 1] == ' ');
        } else {
            assert(upto.len() == r.len());
        }
        if i == 1 {
            reveal_with_fuel(split_to, 2);
            assert(m == 1);
        }
    }
}

/// Whether a part of a text is a word of an identifier: letters and numbers with no
/// boundary between them, and on either side a boundary, another character or an end of
/// the text.
pub open spec fn is_piece(s: Seq<char>, a: int, b: int) -> bool {
    &&& 0 <= a < b <= s.len()
    &&& forall|i: int| a <= i < b ==> text::is_letter_or_number(#[trigger] s[i])
    &&& forall|i: int| a < i < b ==> !#[trigger] boundary(s, i)
    &&& a == 0 || boundary(s, a) || !text::is_letter_or_number(s[a - 1])
    &&& b == s.len() || boundary(s, b) || !text::is_letter_or_number(s[b])
}

/// Whether a word, in lowercase, is found in what is indexed for a text: as one of its
/// runs of letters and numbers, or as a word of an identifier.
pub open spec fn indexes_word(s: Seq<char>, w: Seq<char>) -> bool {
    exists|a: int, b: int|
        #![trigger s.subrange(a, b)]
        (store::is_run(s, a, b) || is_piece(s, a, b)) && text::byte_len(s.subrange(a, b))
            < store::WORD_LIMIT && text::lowercase(s.subrange(a, b)) == w
}

/// A part of a text without a boundary inside is a part of the split form.
proof fn lemma_split_piece(s: Seq<char>, a: int, b: int)
    requires
        0 <= a < b <= s.len(),
        forall|i: int| a < i < b ==> !#[trigger] boundary(s, i),
    ensures
        split_to(s, b) == split_to(s, a + 1) + s.subrange(a + 1, b),
    decreases b,
{
    if b > a + 1 {
        lemma_split_piece(s, a, b - 1);
        assert(!boundary(s, b - 1));
        assert(s.subrange(a + 1, b) =~= s.subrange(a + 1, b - 1).push(s[b - 1]));
        assert(split_to(s, b) =~= split_to(s, a + 1) + s.subrange(a + 1, b));
    } else {
        assert(split_to(s, b) =~= split_to(s, a + 1) + s.subrange(a + 1, b));
    }
}

/// A word of an identifier is a run of the split form; where.
proof fn lemma_piece_is_run(s: Seq<char>, a: int, b: int) -> (r: (int, int))
    requires
        is_piece(s, a, b),
    ensures
        store::is_run(split(s), r.0, r.1),
        split(s).subrange(r.0, r.1) == s.subrange(a, b),
{
    let n = s.len() as int;
    let all = split(s);
    let front = split_to(s, a + 1);
    let upto = split_to(s, b);
    lemma_split_piece(s, a, b);
    lemma_split_prefix(s, a, n);
    lemma_split_prefix(s, a + 1, n);
    lemma_split_prefix(s, b, n);
    lemma_split_len(s, a);
    let x = front.len() - 1;
    let y = upto.len() as int;
    assert(front[x] == s[a]);
    assert(y == x + (b - a));
    let part = all.subrange(x, y);
    assert forall|i: int| 0 <= i < b - a implies part[i] == s[a + i] by {
        assert(all[x + i] == upto[x + i]);
        if i == 0 {
            assert(upto[x] == front[x]);
        } else {
            assert(upto[x + i] == s.subrange(a + 1, b)[i - 1]);
        }
    }
    assert(part =~= s.subrange(a, b));
    assert forall|i: int| x <= i < y implies text::is_letter_or_number(#[trigger] all[i]) by {
        assert(all[i] == part[i - x]);
        assert(part[i - x] == s[a + (i - x)]);
    }
    if x > 0 {
        assert(all[x - 1] == front[x - 1]);
        if !boundary(s, a) {
            let before = split_to(s, a);
            assert(front[x - 1] == before[before.len() - 1]);
            if a > 0 {
                assert(before[before.len() - 1] == s[a - 1]);
            } else {
                assert(before.len() == 0);
            }
        }
    }
    if b < n {
        lemma_split_prefix(s, b + 1, n);
        let next = split_to(s, b + 1);
        assert(all[y] == next[y]);
    } else {
        assert(all.len() == y);
    }
    (x, y)
}

/// What is indexed for a text holds every word of its identifiers, in lowercase.
pub proof fn law_words_of_identifiers_are_indexed(s: Seq<char>, a: int, b: int)
    requires
        is_piece(s, a, b),
        text::byte_len(s.subrange(a, b)) < store::WORD_LIMIT,
        vstd::utf8::is_ascii_chars(text::lowercase(s.subrange(a, b))),
    ensures
        store::holds_word(expanded(s), text::lowercase(s.subrange(a, b))),
{
    let (x, y) = lemma_piece_is_run(s, a, b);
    let all = expanded(s);
    let t = split(s);
    if t == s {
        assert(store::is_run(all, x, y));
        assert(all.subrange(x, y) == s.subrange(a, b));
    } else {
        let at = s.len() as int + 1;
        assert forall|i: int| 0 <= i < t.len() implies all[at + i] == t[i] by {}
        assert(all.subrange(at + x, at + y) =~= t.subrange(x, y));
        assert forall|i: int| at + x <= i < at + y implies text::is_letter_or_number(
            #[trigger] all[i],
        ) by {
            assert(all[i] == t[i - at]);
        }
        if x == 0 {
            assert(all[at - 1] == ' ');
        } else {
            assert(all[at + x - 1] == t[x - 1]);
        }
        if y < t.len() {
            assert(all[at + y] == t[y]);
        }
        assert(store::is_run(all, at + x, at + y));
    }
}

/// What is indexed for a text holds every run of letters and numbers of it, in lowercase.
pub proof fn law_whole_identifiers_are_indexed(s: Seq<char>, a: int, b: int)
    requires
        store::is_run(s, a, b),
        text::byte_len(s.subrange(a, b)) < store::WORD_LIMIT,
        vstd::utf8::is_ascii_chars(text::lowercase(s.subrange(a, b))),
    ensures
        store::holds_word(expanded(s), text::lowercase(s.subrange(a, b))),
{
    let all = expanded(s);
    assert forall|i: int| 0 <= i < s.len() implies all[i] == s[i] by {}
    assert(all.subrange(a, b) =~= s.subrange(a, b));
    assert forall|i: int| a <= i < b implies text::is_letter_or_number(#[trigger] all[i]) by {
        assert(all[i] == s[i]);
    }
    if a > 0 {
        assert(all[a - 1] == s[a - 1]);
    }
    if b < s.len() {
        assert(all[b] == s[b]);
    } else if all.len() > s.len() {
        assert(all[b] == ' ');
    }
    assert(store::is_run(all, a, b));
}

/// A word of ASCII that is a run of a text or a word of one of its identifiers is held by
/// what is indexed for the text.
pub proof fn law_indexed_words_are_held(s: Seq<char>, w: Seq<char>)
    requires
        indexes_word(s, w),
        vstd::utf8::is_ascii_chars(w),
    ensures
        store::holds_word(expanded(s), w),
{
    let (a, b) = choose|a: int, b: int|
        #![trigger s.subrange(a, b)]
        (store::is_run(s, a, b) || is_piece(s, a, b)) && text::byte_len(s.subrange(a, b))
            < store::WORD_LIMIT && text::lowercase(s.subrange(a, b)) == w;
    if is_piece(s, a, b) {
        law_words_of_identifiers_are_indexed(s, a, b);
    } else {
        law_whole_identifiers_are_indexed(s, a, b);
    }
}

/// To split two texts that follow each other is to split each, with a space between them
/// exactly where one ends and the other begins as two words of an identifier do: a capital
/// after a lowercase character, a letter after a digit, a digit after a letter, or a
/// capital after a capital that a lowercase character follows. (Two capitals at the end of
/// one text before a lowercase character belong to the other, which is the last case.)
pub proof fn law_split_in_turn(a: Seq<char>, b: Seq<char>)
    requires
        a.len() > 0,
        b.len() > 0,
        !(a.len() > 1 && text::is_upper(a[a.len() - 2]) && text::is_upper(a.last())
            && text::is_lower(b[0])),
    ensures
        ({
            let (p, c) = (a.last(), b[0]);
            let parted = ((text::is_letter_or_number(p) || p == '_') && text::is_lower(p)
                && text::is_upper(c)) || ('0' <= p <= '9' && text::is_letter(c)) || (text::is_letter(p)
                && '0' <= c <= '9') || (text::is_upper(p) && text::is_upper(c) && b.len() > 1
                && text::is_lower(b[1]));
            split(a + b) == if parted {
                split(a) + seq![' '] + split(b)
            } else {
                split(a) + split(b)
            }
        }),
{
    lemma_split_front(a, b, a.len() as int);
    lemma_split_back(a, b, b.len() as int);
}

/// The front of a text is split as it is on its own.
proof fn lemma_split_front(a: Seq<char>, b: Seq<char>, k: int)
    requires
        0 <= k <= a.len(),
        a.len() > 0,
        b.len() > 0,
        !(a.len() > 1 && text::is_upper(a[a.len() - 2]) && text::is_upper(a.last())
            && text::is_lower(b[0])),
    ensures
        split_to(a + b, k) == split_to(a, k),
    decreases k,
{
    let s = a + b;
    if k > 0 {
        lemma_split_front(a, b, k - 1);
        assert(s[k - 1] == a[k - 1]);
        if k > 1 {
            assert(s[k - 2] == a[k - 2]);
        }
        if k < a.len() {
            assert(s[k] == a[k]);
        } else {
            assert(s[k] == b[0]);
        }
        assert(boundary(s, k - 1) == boundary(a, k - 1));
    }
}

/// The back of a text is split as it is on its own, behind the front and what parts them.
proof fn lemma_split_back(a: Seq<char>, b: Seq<char>, k: int)
    requires
        0 <= k <= b.len(),
        a.len() > 0,
    ensures
        split_to(a + b, a.len() + k) == split_to(a + b, a.len() as int) + (if k > 0 && boundary(
            a + b,
            a.len() as int,
        ) {
            seq![' ']
        } else {
            seq![]
        }) + split_to(b, k),
    decreases k,
{
    let s = a + b;
    let n = a.len() as int;
    if k > 0 {
        lemma_split_back(a, b, k - 1);
        assert(s[n + k - 1] == b[k - 1]);
        if k > 1 {
            assert(s[n + k - 2] == b[k - 2]);
            if k < b.len() {
                assert(s[n + k] == b[k]);
            }
            assert(boundary(s, n + k - 1) == boundary(b, k - 1));
        } else {
            assert(!boundary(b, 0));
        }
        assert(split_to(s, n + k) =~= split_to(s, n) + (if boundary(s, n) {
            seq![' ']
        } else {
            seq![]
        }) + split_to(b, k));
    } else {
        assert(split_to(s, n) =~= split_to(s, n) + Seq::<char>::empty() + split_to(b, 0));
    }
}

/// A single character is not split, and what is indexed for a text is the text, followed,
/// where its split form is another text, by a space and that form.
pub proof fn law_expanded_is_text_and_split(c: char, s: Seq<char>)
    ensures
        split(seq![c]) == seq![c],
        split(s) == s ==> expanded(s) == s,
        split(s) != s ==> expanded(s) == s + seq![' '] + split(s),
{
    reveal_with_fuel(split_to, 2);
    assert(split(seq![c]) =~= seq![c]);
}

} // verus!
