//! Text as sequences of characters: trimming, splitting, decimal numbers.

use vstd::prelude::*;
use vstd::slice::slice_subrange;
use vstd::utf8::{decode_utf8, valid_utf8};

verus! {

// ---------------------------------------------------------------------------
// Characters and strings
// ---------------------------------------------------------------------------

/// Specifies `String::push`. Claimed: the character is added at the end.
pub assume_specification[ String::push ](s: &mut String, c: char)
    ensures
        final(s)@ == old(s)@.push(c),
;

/// The characters of a string.
pub fn chars_of(s: &str) -> (chars: Vec<char>)
    ensures
        chars@ == s@,
{
    let mut chars: Vec<char> = Vec::new();
    for c in it: s.chars()
        invariant
            chars@ == it.seq().take(it.index() as int),
            it.seq() == s@,
    {
        chars.push(c);
    }
    chars
}

/// The string of the characters.
pub fn string_of(chars: &[char]) -> (s: String)
    ensures
        s@ == chars@,
{
    let mut s = String::new();
    let mut i: usize = 0;
    while i < chars.len()
        invariant
            i <= chars@.len(),
            s@ == chars@.take(i as int),
        decreases chars@.len() - i,
    {
        assert(chars@.take(i + 1) =~= chars@.take(i as int).push(chars@[i as int]));
        s.push(chars[i]);
        i = i + 1;
    }
    assert(chars@.take(i as int) =~= chars@);
    s
}

/// The text that `String::from_utf8_lossy` makes of the bytes.
pub uninterp spec fn lossy_text(bytes: Seq<u8>) -> Seq<char>;

/// Calls `String::from_utf8_lossy`. Claimed: the result depends on the bytes
/// alone, and is the text that they encode where they are valid UTF-8. How
/// other bytes are replaced is left unsaid.
#[verifier::external_body]
pub(crate) fn from_utf8_lossy(bytes: &[u8]) -> (s: String)
    ensures
        s@ == lossy_text(bytes@),
        valid_utf8(bytes@) ==> s@ == decode_utf8(bytes@),
{
    String::from_utf8_lossy(bytes).into_owned()
}

/// The two texts are the same.
pub fn same_text(a: &[char], b: &[char]) -> (same: bool)
    ensures
        same == (a@ == b@),
{
    if a.len() != b.len() {
        return false;
    }
    let mut i: usize = 0;
    while i < a.len()
        invariant
            i <= a@.len() == b@.len(),
            forall|j: int| 0 <= j < i ==> a@[j] == b@[j],
        decreases a@.len() - i,
    {
        if a[i] != b[i] {
            return false;
        }
        i = i + 1;
    }
    assert(a@ =~= b@);
    true
}

/// `s` begins with `prefix`.
pub open spec fn begins_with(s: Seq<char>, prefix: Seq<char>) -> bool {
    prefix.len() <= s.len() && s.take(prefix.len() as int) == prefix
}

/// Tests whether `s` begins with `prefix`.
pub fn starts_with(s: &[char], prefix: &[char]) -> (b: bool)
    ensures
        b == begins_with(s@, prefix@),
{
    if s.len() < prefix.len() {
        return false;
    }
    same_text(slice_subrange(s, 0, prefix.len()), prefix)
}

/// The first position of `c` from `i` on; the length where there is none.
pub open spec fn position_from(s: Seq<char>, c: char, i: int) -> int
    decreases s.len() - i,
{
    if i < 0 || i >= s.len() {
        s.len() as int
    } else if s[i] == c {
        i
    } else {
        position_from(s, c, i + 1)
    }
}

/// What `position_from` finds.
pub proof fn lemma_position_from(s: Seq<char>, c: char, i: int)
    requires
        0 <= i <= s.len(),
    ensures
        i <= position_from(s, c, i) <= s.len(),
        position_from(s, c, i) < s.len() ==> s[position_from(s, c, i)] == c,
        forall|j: int| i <= j < position_from(s, c, i) ==> s[j] != c,
    decreases s.len() - i,
{
    if i < s.len() {
        lemma_position_from(s, c, i + 1);
    }
}

/// The first position of `c`, or the length.
pub fn position_of(s: &[char], c: char) -> (p: usize)
    ensures
        p == position_from(s@, c, 0),
        p <= s@.len(),
        p < s@.len() ==> s@[p as int] == c,
        forall|j: int| 0 <= j < p ==> s@[j] != c,
{
    proof {
        lemma_position_from(s@, c, 0);
    }
    let mut i: usize = 0;
    while i < s.len()
        invariant
            i <= s@.len(),
            position_from(s@, c, 0) == position_from(s@, c, i as int),
            forall|j: int| 0 <= j < i ==> s@[j] != c,
        decreases s@.len() - i,
    {
        if s[i] == c {
            return i;
        }
        i = i + 1;
    }
    i
}

/// Tests whether `c` occurs.
pub fn has_char(s: &[char], c: char) -> (b: bool)
    ensures
        b == s@.contains(c),
{
    let p: usize = position_of(s, c);
    if p < s.len() {
        assert(s@[p as int] == c);
        true
    } else {
        false
    }
}

// ---------------------------------------------------------------------------
// White space
// ---------------------------------------------------------------------------

/// The characters with the Unicode property White_Space.
pub open spec fn is_space(c: char) -> bool {
    ||| '\u{9}' <= c <= '\u{d}'
    ||| c == '\u{20}'
    ||| c == '\u{85}'
    ||| c == '\u{a0}'
    ||| c == '\u{1680}'
    ||| '\u{2000}' <= c <= '\u{200a}'
    ||| c == '\u{2028}'
    ||| c == '\u{2029}'
    ||| c == '\u{202f}'
    ||| c == '\u{205f}'
    ||| c == '\u{3000}'
}

/// Tests for white space.
pub fn is_whitespace(c: char) -> (b: bool)
    ensures
        b == is_space(c),
{
    ('\u{9}' <= c && c <= '\u{d}') || c == '\u{20}' || c == '\u{85}' || c == '\u{a0}' || c
        == '\u{1680}' || ('\u{2000}' <= c && c <= '\u{200a}') || c == '\u{2028}' || c == '\u{2029}'
        || c == '\u{202f}' || c == '\u{205f}' || c == '\u{3000}'
}

/// The text without white space at its front.
pub open spec fn trimmed_front(s: Seq<char>) -> Seq<char>
    decreases s.len(),
{
    if s.len() > 0 && is_space(s.first()) {
        trimmed_front(s.drop_first())
    } else {
        s
    }
}

/// The text without white space at its end.
pub open spec fn trimmed_back(s: Seq<char>) -> Seq<char>
    decreases s.len(),
{
    if s.len() > 0 && is_space(s.last()) {
        trimmed_back(s.drop_last())
    } else {
        s
    }
}

/// The text without white space at either end.
pub open spec fn trimmed(s: Seq<char>) -> Seq<char> {
    trimmed_back(trimmed_front(s))
}

/// The text without white space at either end.
pub fn trim(s: &[char]) -> (t: &[char])
    ensures
        t@ == trimmed(s@),
{
    let mut lo: usize = 0;
    assert(s@.skip(0) =~= s@);
    while lo < s.len() && is_whitespace(s[lo])
        invariant
            lo <= s@.len(),
            trimmed_front(s@.skip(lo as int)) == trimmed_front(s@),
        decreases s@.len() - lo,
    {
        assert(s@.skip(lo as int).drop_first() =~= s@.skip(lo + 1));
        lo = lo + 1;
    }
    let mut hi: usize = s.len();
    let ghost front = s@.skip(lo as int);
    assert(s@.subrange(lo as int, hi as int) =~= front);
    while hi > lo && is_whitespace(s[hi - 1])
        invariant
            lo <= hi <= s@.len(),
            trimmed_back(s@.subrange(lo as int, hi as int)) == trimmed_back(front),
        decreases hi,
    {
        assert(s@.subrange(lo as int, hi as int).drop_last() =~= s@.subrange(
            lo as int,
            hi - 1,
        ));
        hi = hi - 1;
    }
    slice_subrange(s, lo, hi)
}

/// The words of a text: its longest pieces without white space.
pub open spec fn words(s: Seq<char>) -> Seq<Seq<char>>
    decreases s.len(),
{
    if s.len() == 0 {
        Seq::empty()
    } else {
        let before = words(s.drop_last());
        if is_space(s.last()) {
            before
        } else if s.len() >= 2 && !is_space(s[s.len() - 2]) {
            before.drop_last().push(before.last().push(s.last()))
        } else {
            before.push(seq![s.last()])
        }
    }
}

/// The pieces of `s` between the separators: one more than there are
/// separators.
pub open spec fn segments(s: Seq<char>, sep: char) -> Seq<Seq<char>>
    decreases s.len(),
{
    if s.len() == 0 {
        seq![Seq::empty()]
    } else {
        let before = segments(s.drop_last(), sep);
        if s.last() == sep {
            before.push(Seq::empty())
        } else {
            before.drop_last().push(before.last().push(s.last()))
        }
    }
}

/// The contents of a list of texts.
pub open spec fn texts(list: Seq<Vec<char>>) -> Seq<Seq<char>> {
    Seq::new(list.len(), |i: int| list[i]@)
}

/// The contents of a list of strings.
pub open spec fn strings(list: Seq<String>) -> Seq<Seq<char>> {
    Seq::new(list.len(), |i: int| list[i]@)
}

/// Every text has a piece.
pub proof fn lemma_segments_some(s: Seq<char>, sep: char)
    ensures
        segments(s, sep).len() > 0,
    decreases s.len(),
{
    if s.len() > 0 {
        lemma_segments_some(s.drop_last(), sep);
    }
}

/// Splits a text at each separator.
pub fn split(s: &[char], sep: char) -> (list: Vec<Vec<char>>)
    ensures
        texts(list@) == segments(s@, sep),
{
    let mut list: Vec<Vec<char>> = Vec::new();
    let mut piece: Vec<char> = Vec::new();
    let mut i: usize = 0;
    assert(s@.take(0) =~= Seq::empty());
    assert(texts(list@).push(piece@) =~= segments(s@.take(0), sep));
    while i < s.len()
        invariant
            i <= s@.len(),
            texts(list@).push(piece@) == segments(s@.take(i as int), sep),
        decreases s@.len() - i,
    {
        let ghost before = texts(list@).push(piece@);
        proof {
            assert(s@.take(i + 1).drop_last() =~= s@.take(i as int));
            assert(before.drop_last() =~= texts(list@));
        }
        if s[i] == sep {
            let ghost old_list = list@;
            list.push(piece);
            piece = Vec::new();
            assert(texts(list@) =~= before);
            assert(piece@ =~= Seq::empty());
        } else {
            piece.push(s[i]);
        }
        i = i + 1;
    }
    assert(s@.take(i as int) =~= s@);
    let ghost all = texts(list@).push(piece@);
    list.push(piece);
    assert(texts(list@) =~= all);
    list
}

/// Splits a text into its words.
pub fn split_whitespace(s: &[char]) -> (list: Vec<Vec<char>>)
    ensures
        texts(list@) == words(s@),
{
    let mut list: Vec<Vec<char>> = Vec::new();
    let mut word: Vec<char> = Vec::new();
    let mut i: usize = 0;
    assert(s@.take(0) =~= Seq::empty());
    assert(texts(list@) =~= words(s@.take(0)));
    while i < s.len()
        invariant
            i <= s@.len(),
            (i > 0 && !is_space(s@[i - 1])) == (word@.len() > 0),
            word@.len() > 0 ==> texts(list@).push(word@) == words(s@.take(i as int)),
            word@.len() == 0 ==> texts(list@) == words(s@.take(i as int)),
        decreases s@.len() - i,
    {
        let ghost before = words(s@.take(i as int));
        proof {
            assert(s@.take(i + 1).drop_last() =~= s@.take(i as int));
            assert(word@.len() > 0 ==> before.drop_last() =~= texts(list@));
        }
        if is_whitespace(s[i]) {
            if word.len() > 0 {
                list.push(word);
                word = Vec::new();
                assert(texts(list@) =~= before);
            }
        } else {
            let ghost grown = word@.push(s@[i as int]);
            word.push(s[i]);
            assert(word@.len() == 1 ==> word@ =~= seq![s@[i as int]]);
        }
        i = i + 1;
    }
    assert(s@.take(i as int) =~= s@);
    if word.len() > 0 {
        let ghost all = texts(list@).push(word@);
        list.push(word);
        assert(texts(list@) =~= all);
    }
    list
}

// ---------------------------------------------------------------------------
// Decimal numbers
// ---------------------------------------------------------------------------

/// A decimal digit.
pub open spec fn is_digit(c: char) -> bool {
    '0' <= c <= '9'
}

/// The number that a digit stands for.
pub open spec fn digit_value(c: char) -> int {
    c as int - '0' as int
}

/// The number that the digits stand for.
pub open spec fn decimal_value(s: Seq<char>) -> int
    decreases s.len(),
{
    if s.len() == 0 {
        0
    } else {
        10 * decimal_value(s.drop_last()) + digit_value(s.last())
    }
}

/// Only digits, and at least one.
pub open spec fn is_number(s: Seq<char>) -> bool {
    s.len() > 0 && forall|i: int| 0 <= i < s.len() ==> is_digit(#[trigger] s[i])
}

/// The text without a plus sign in front.
pub open spec fn unsigned(s: Seq<char>) -> Seq<char> {
    if s.len() > 0 && s[0] == '+' {
        s.drop_first()
    } else {
        s
    }
}

/// The number that a text stands for: digits, with a plus sign in front or
/// without, worth at most `max`.
pub open spec fn parsed(s: Seq<char>, max: int) -> Option<int> {
    if is_number(unsigned(s)) && decimal_value(unsigned(s)) <= max {
        Some(decimal_value(unsigned(s)))
    } else {
        None
    }
}

/// Leading digits never make a number smaller.
proof fn lemma_decimal_prefix(s: Seq<char>, n: int)
    requires
        0 <= n <= s.len(),
        forall|i: int| 0 <= i < s.len() ==> is_digit(#[trigger] s[i]),
    ensures
        0 <= decimal_value(s.take(n)) <= decimal_value(s),
    decreases s.len() - n, n,
{
    if n < s.len() {
        lemma_decimal_prefix(s, n + 1);
        assert(s.take(n + 1).drop_last() =~= s.take(n));
        assert(s.take(n + 1).last() == s[n]);
        assert(is_digit(s[n]));
        lemma_decimal_nonneg(s.take(n));
    } else {
        assert(s.take(n) =~= s);
        lemma_decimal_nonneg(s);
    }
}

proof fn lemma_decimal_nonneg(s: Seq<char>)
    requires
        forall|i: int| 0 <= i < s.len() ==> is_digit(#[trigger] s[i]),
    ensures
        0 <= decimal_value(s),
    decreases s.len(),
{
    if s.len() > 0 {
        assert(is_digit(s[s.len() - 1]));
        lemma_decimal_nonneg(s.drop_last());
    }
}

/// Parses a number of at most `max`.
pub fn parse_number(s: &[char], max: u64) -> (n: Option<u64>)
    ensures
        match n {
            Some(v) => parsed(s@, max as int) == Some(v as int),
            None => parsed(s@, max as int) is None,
        },
{
    let lo: usize = if s.len() > 0 && s[0] == '+' {
        1
    } else {
        0
    };
    let digits = slice_subrange(s, lo, s.len());
    assert(digits@ =~= unsigned(s@));
    if digits.len() == 0 {
        return None;
    }
    let mut value: u64 = 0;
    let mut i: usize = 0;
    assert(digits@.take(0) =~= Seq::empty());
    while i < digits.len()
        invariant
            i <= digits@.len(),
            digits@ == unsigned(s@),
            forall|j: int| 0 <= j < i ==> is_digit(#[trigger] digits@[j]),
            value == decimal_value(digits@.take(i as int)),
            value <= max,
        decreases digits@.len() - i,
    {
        let c: char = digits[i];
        if !('0' <= c && c <= '9') {
            assert(!is_digit(digits@[i as int]));
            return None;
        }
        let digit: u64 = (c as u32 - '0' as u32) as u64;
        assert(digits@.take(i + 1).drop_last() =~= digits@.take(i as int));
        if value > max / 10 || digit > max - 10 * value {
            proof {
                if is_number(digits@) {
                    lemma_decimal_prefix(digits@, i + 1);
                    assert(decimal_value(digits@.take(i + 1)) == 10 * value + digit);
                    assert(decimal_value(digits@) > max);
                }
            }
            return None;
        }
        value = 10 * value + digit;
        i = i + 1;
    }
    assert(digits@.take(i as int) =~= digits@);
    Some(value)
}

/// The digit for a number below ten.
pub open spec fn digit_char(n: int) -> char {
    ('0' as int + n) as char
}

/// The decimal digits of a number.
pub open spec fn decimal(n: nat) -> Seq<char>
    decreases n,
{
    if n < 10 {
        seq![digit_char(n as int)]
    } else {
        decimal(n / 10).push(digit_char((n % 10) as int))
    }
}

/// The digits of a number stand for it.
pub proof fn law_decimal_round_trip(n: nat)
    ensures
        is_number(decimal(n)),
        decimal_value(decimal(n)) == n,
    decreases n,
{
    reveal_with_fuel(decimal_value, 2);
    if n < 10 {
        assert(decimal(n).drop_last() =~= Seq::empty());
    } else {
        law_decimal_round_trip(n / 10);
        assert(decimal(n).drop_last() =~= decimal(n / 10));
    }
}

/// The decimal digits of a number.
pub fn format_number(n: u64) -> (s: Vec<char>)
    ensures
        s@ == decimal(n as nat),
    decreases n,
{
    let mut s: Vec<char> = if n < 10 {
        Vec::new()
    } else {
        format_number(n / 10)
    };
    let d: u8 = (n % 10) as u8;
    let c: char = (48 + d) as char;
    s.push(c);
    assert(s@ =~= decimal(n as nat));
    s
}

// ---------------------------------------------------------------------------
// Laws
// ---------------------------------------------------------------------------

/// The blanks of ASCII are white space, and no visible character of ASCII is.
pub proof fn law_white_space_of_ascii(c: char)
    requires
        (c as int) < 128,
    ensures
        is_space(c) <==> c == ' ' || c == '\t' || c == '\n' || c == '\r' || c == '\u{b}' || c
            == '\u{c}',
{
}

/// Beyond ASCII, white space is the blanks and the line ends of Unicode, and nothing
/// else.
pub proof fn law_white_space_of_unicode(c: char)
    requires
        (c as int) >= 128,
    ensures
        is_space(c) <==> c as int == 0x85 || c as int == 0xa0 || c as int == 0x1680 || 0x2000 <= c as int
            <= 0x200a || c as int == 0x2028 || c as int == 0x2029 || c as int == 0x202f || c as int
            == 0x205f || c as int == 0x3000,
{
}

/// White space at both ends is trimmed, all of it and nothing else: what is left
/// begins and ends as the text between did.
pub proof fn law_trim_takes_white_space(front: Seq<char>, s: Seq<char>, back: Seq<char>)
    requires
        forall|i: int| 0 <= i < front.len() ==> is_space(#[trigger] front[i]),
        forall|i: int| 0 <= i < back.len() ==> is_space(#[trigger] back[i]),
        s.len() > 0 ==> !is_space(s[0]) && !is_space(s.last()),
    ensures
        trimmed(front + s + back) == s,
{
    lemma_trim_front(front, s + back);
    assert(front + s + back =~= front + (s + back));
    if s.len() > 0 {
        assert((s + back)[0] == s[0]);
        assert(trimmed_front(s + back) == s + back);
        lemma_trim_back(s, back);
    } else {
        assert(s + back =~= back);
        lemma_trim_front(back, Seq::empty());
        assert(back + Seq::empty() =~= back);
        assert(trimmed_front(Seq::<char>::empty()) =~= Seq::empty());
        assert(s =~= Seq::empty());
    }
}

proof fn lemma_trim_front(front: Seq<char>, s: Seq<char>)
    requires
        forall|i: int| 0 <= i < front.len() ==> is_space(#[trigger] front[i]),
    ensures
        trimmed_front(front + s) == trimmed_front(s),
    decreases front.len(),
{
    if front.len() == 0 {
        assert(front + s =~= s);
    } else {
        assert(is_space(front[0]));
        assert((front + s).drop_first() =~= front.drop_first() + s);
        assert forall|i: int| 0 <= i < front.drop_first().len() implies is_space(
            #[trigger] front.drop_first()[i],
        ) by {
            assert(front.drop_first()[i] == front[i + 1]);
        }
        lemma_trim_front(front.drop_first(), s);
    }
}

proof fn lemma_trim_back(s: Seq<char>, back: Seq<char>)
    requires
        forall|i: int| 0 <= i < back.len() ==> is_space(#[trigger] back[i]),
        s.len() > 0,
        !is_space(s.last()),
    ensures
        trimmed_back(s + back) == s,
    decreases back.len(),
{
    if back.len() == 0 {
        assert(s + back =~= s);
    } else {
        assert(is_space(back[back.len() - 1]));
        assert((s + back).drop_last() =~= s + back.drop_last());
        lemma_trim_back(s, back.drop_last());
    }
}

/// A text with a separator in it has the pieces of what is before it, then those
/// of what is behind it; one without is one piece.
pub proof fn law_text_is_split_at_separators(a: Seq<char>, b: Seq<char>, sep: char)
    ensures
        segments(a + seq![sep] + b, sep) == segments(a, sep) + segments(b, sep),
        !a.contains(sep) ==> segments(a, sep) == seq![a],
    decreases b.len(), a.len(),
{
    let s = a + seq![sep] + b;
    lemma_segments_some(a, sep);
    if b.len() == 0 {
        assert(s.drop_last() =~= a);
        assert(segments(a, sep).push(Seq::empty()) =~= segments(a, sep) + seq![Seq::empty()]);
    } else {
        let shorter = b.drop_last();
        law_text_is_split_at_separators(a, shorter, sep);
        lemma_segments_some(shorter, sep);
        assert(s.drop_last() =~= a + seq![sep] + shorter);
        assert(segments(s, sep) =~= segments(a, sep) + segments(b, sep));
    }
    if !a.contains(sep) {
        lemma_one_segment(a, sep);
    }
}

proof fn lemma_one_segment(a: Seq<char>, sep: char)
    requires
        !a.contains(sep),
    ensures
        segments(a, sep) == seq![a],
    decreases a.len(),
{
    if a.len() == 0 {
        assert(a =~= Seq::empty());
    } else {
        assert(a.contains(a[a.len() - 1]));
        assert forall|c: char| a.drop_last().contains(c) implies a.contains(c) by {
            let i = a.drop_last().index_of(c);
            assert(a[i] == c);
        }
        lemma_one_segment(a.drop_last(), sep);
        assert(a.drop_last().push(a.last()) =~= a);
        assert(segments(a, sep) =~= seq![a]);
    }
}

/// Behind white space new words begin: those of the text before it are followed by
/// those of the text behind it. A text that is not empty and has no white space is
/// one word.
pub proof fn law_words_are_parted_by_white_space(a: Seq<char>, c: char, b: Seq<char>)
    requires
        is_space(c),
    ensures
        words(a + seq![c] + b) == words(a) + words(b),
        words(Seq::<char>::empty()).len() == 0,
        b.len() > 0 && (forall|i: int| 0 <= i < b.len() ==> !is_space(#[trigger] b[i])) ==> words(b)
            == seq![b],
    decreases b.len(),
{
    let s = a + seq![c] + b;
    if b.len() == 0 {
        assert(s.drop_last() =~= a);
        assert(words(a) + words(b) =~= words(a));
    } else {
        let shorter = b.drop_last();
        assert(s.drop_last() =~= a + seq![c] + shorter);
        law_words_are_parted_by_white_space(a, c, shorter);
        if b.len() >= 2 {
            assert(s[s.len() - 2] == b[b.len() - 2]);
            lemma_words_some(shorter);
        } else {
            assert(s[s.len() - 2] == c);
            assert(shorter =~= Seq::empty());
            assert(words(a) + words(shorter) =~= words(a));
        }
        assert(words(s) =~= words(a) + words(b));
        if forall|i: int| 0 <= i < b.len() ==> !is_space(#[trigger] b[i]) {
            assert(!is_space(b[b.len() - 1]));
            if b.len() >= 2 {
                assert forall|i: int| 0 <= i < shorter.len() implies !is_space(
                    #[trigger] shorter[i],
                ) by {
                    assert(shorter[i] == b[i]);
                }
                assert(!is_space(b[b.len() - 2]));
                assert(shorter.push(b.last()) =~= b);
                assert(words(b) =~= seq![b]);
            } else {
                assert(seq![b.last()] =~= b);
                assert(words(b) =~= seq![b]);
            }
        }
    }
}

proof fn lemma_words_some(s: Seq<char>)
    ensures
        s.len() > 0 && !is_space(s.last()) ==> words(s).len() > 0,
    decreases s.len(),
{
    if s.len() > 0 {
        lemma_words_some(s.drop_last());
    }
}

/// A number is read back from its digits, with a plus sign in front or without,
/// exactly where it does not exceed the limit; a text with any other character in
/// it, or none at all, is no number.
pub proof fn law_numbers_are_read(n: nat, max: int, s: Seq<char>, i: int)
    ensures
        parsed(decimal(n), max) == if n <= max {
            Some(n as int)
        } else {
            None
        },
        parsed(seq!['+'] + decimal(n), max) == parsed(decimal(n), max),
        parsed(Seq::empty(), max) is None,
        0 < i < s.len() && !('0' <= s[i] <= '9') ==> parsed(s, max) is None,
        s.len() > 0 && !('0' <= s[0] <= '9') && s[0] != '+' ==> parsed(s, max) is None,
{
    law_decimal_round_trip(n);
    let d = decimal(n);
    assert(is_digit(d[0]));
    assert((seq!['+'] + d).drop_first() =~= d);
    if 0 < i < s.len() {
        if s[0] == '+' {
            assert(s.drop_first()[i - 1] == s[i]);
        }
    }
}

/// The digits of a number go on behind those of a tenth of it.
pub proof fn law_digits_are_the_number(n: nat, d: nat)
    requires
        d < 10,
    ensures
        decimal(d) == seq![('0' as int + d) as char],
        n > 0 ==> decimal(10 * n + d) == decimal(n) + decimal(d),
{
    if n > 0 {
        assert((10 * n + d) / 10 == n);
        assert((10 * n + d) % 10 == d);
        assert(decimal(n).push(digit_char(d as int)) =~= decimal(n) + decimal(d));
    }
}

} // verus!
