//! Helpers on text. A text is seen as its sequence of characters.

use vstd::prelude::*;
use vstd::string::StrSliceExecFns;
use vstd::string::StringExecFns;
use vstd::string::StringSliceAdditionalSpecFns;
use vstd::utf8::encode_utf8_decode_utf8;

verus! {

/// The characters of `text`, in order.
pub fn chars_of(text: &str) -> (chars: Vec<char>)
    ensures
        chars@ == text@,
{
    let mut chars: Vec<char> = Vec::new();
    for c in it: text.chars()
        invariant
            chars@ == it.seq().take(it.index() as int),
            it.seq() == text@,
    {
        chars.push(c);
    }
    chars
}

/// Two texts with the same UTF-8 encoding are the same text.
pub proof fn lemma_encoding_is_injective(a: Seq<char>, b: Seq<char>)
    requires
        vstd::utf8::encode_utf8(a) == vstd::utf8::encode_utf8(b),
    ensures
        a == b,
{
    encode_utf8_decode_utf8(a);
    encode_utf8_decode_utf8(b);
}

/// Whether `a` and `b` hold the same characters.
pub fn same_text(a: &str, b: &str) -> (same: bool)
    ensures
        same == (a@ == b@),
{
    let left = a.as_bytes();
    let right = b.as_bytes();
    if left.len() != right.len() {
        return false;
    }
    let mut i: usize = 0;
    while i < left.len()
        invariant
            i <= left.len(),
            left.len() == right.len(),
            left@ == a.spec_bytes(),
            right@ == b.spec_bytes(),
            forall|k: int| 0 <= k < i ==> left@[k] == right@[k],
        decreases left.len() - i,
    {
        if left[i] != right[i] {
            return false;
        }
        i += 1;
    }
    proof {
        assert(left@ =~= right@);
        lemma_encoding_is_injective(a@, b@);
    }
    true
}

/// Whether `text` holds `literal` at position `at`.
pub open spec fn occurs_at(text: Seq<char>, at: int, literal: Seq<char>) -> bool {
    &&& 0 <= at
    &&& at + literal.len() <= text.len()
    &&& text.subrange(at, at + literal.len()) == literal
}

/// Whether `text` holds `literal` at position `at`.
pub fn occurs(text: &Vec<char>, at: usize, literal: &Vec<char>) -> (found: bool)
    ensures
        found == occurs_at(text@, at as int, literal@),
{
    if at > text.len() || literal.len() > text.len() - at {
        return false;
    }
    let mut i: usize = 0;
    while i < literal.len()
        invariant
            i <= literal.len(),
            at + literal.len() <= text.len(),
            forall|k: int| 0 <= k < i ==> text@[at + k] == literal@[k],
        decreases literal.len() - i,
    {
        if text[at + i] != literal[i] {
            proof {
                let part = text@.subrange(at as int, at + literal.len());
                assert(part[i as int] != literal@[i as int]);
            }
            return false;
        }
        i += 1;
    }
    proof {
        assert(text@.subrange(at as int, at + literal.len()) =~= literal@);
    }
    true
}

/// What is left of `text` from position `at` on, with each occurrence of
/// `from` replaced by `to`: the occurrences are taken from left to right, and
/// none begins within the one before it. An empty `from` occurs nowhere.
pub open spec fn replaced_from(text: Seq<char>, from: Seq<char>, to: Seq<char>, at: int) -> Seq<char>
    decreases text.len() - at,
{
    if at < 0 || at >= text.len() {
        Seq::empty()
    } else if from.len() > 0 && occurs_at(text, at, from) {
        to + replaced_from(text, from, to, at + from.len())
    } else {
        seq![text[at]] + replaced_from(text, from, to, at + 1)
    }
}

/// `text` with each occurrence of `from` replaced by `to`.
pub open spec fn replaced(text: Seq<char>, from: Seq<char>, to: Seq<char>) -> Seq<char> {
    replaced_from(text, from, to, 0)
}

/// Without anything to replace, what is left of the text is left as it is.
proof fn lemma_nothing_replaced(text: Seq<char>, to: Seq<char>, at: int)
    requires
        0 <= at <= text.len(),
    ensures
        replaced_from(text, Seq::empty(), to, at) == text.subrange(at, text.len() as int),
    decreases text.len() - at,
{
    if at < text.len() {
        lemma_nothing_replaced(text, to, at + 1);
        assert(seq![text[at]] + text.subrange(at + 1, text.len() as int) =~= text.subrange(
            at,
            text.len() as int,
        ));
    } else {
        assert(text.subrange(at, text.len() as int) =~= Seq::<char>::empty());
    }
}

/// `text` with each occurrence of `from` replaced by `to`.
pub fn replace_all(text: &str, from: &str, to: &str) -> (result: String)
    ensures
        result@ == replaced(text@, from@, to@),
{
    let chars = chars_of(text);
    let pattern = chars_of(from);
    if pattern.len() == 0 {
        proof {
            assert(from@ =~= Seq::<char>::empty());
            lemma_nothing_replaced(text@, to@, 0);
            assert(text@.subrange(0, text@.len() as int) =~= text@);
        }
        return String::from_str(text);
    }
    let mut result = String::new();
    let mut kept: usize = 0;
    let mut at: usize = 0;
    while at < chars.len()
        invariant
            kept <= at <= chars.len(),
            chars@ == text@,
            pattern@ == from@,
            pattern@.len() > 0,
            result@ + chars@.subrange(kept as int, at as int) + replaced_from(chars@, from@, to@, at as int)
                == replaced(chars@, from@, to@),
        decreases chars.len() - at,
    {
        let ghost done = result@;
        let ghost pending = chars@.subrange(kept as int, at as int);
        if occurs(&chars, at, &pattern) {
            result.append(text.substring_char(kept, at));
            result.append(to);
            at += pattern.len();
            kept = at;
            proof {
                assert(chars@.subrange(kept as int, at as int) =~= Seq::<char>::empty());
                assert(result@ + chars@.subrange(kept as int, at as int) + replaced_from(
                    chars@,
                    from@,
                    to@,
                    at as int,
                ) =~= done + pending + (to@ + replaced_from(chars@, from@, to@, at as int)));
            }
        } else {
            at += 1;
            proof {
                assert(chars@.subrange(kept as int, at as int) =~= pending + seq![chars@[at - 1]]);
                assert(result@ + chars@.subrange(kept as int, at as int) + replaced_from(
                    chars@,
                    from@,
                    to@,
                    at as int,
                ) =~= done + pending + (seq![chars@[at - 1]] + replaced_from(
                    chars@,
                    from@,
                    to@,
                    at as int,
                )));
            }
        }
    }
    let ghost done = result@;
    result.append(text.substring_char(kept, chars.len()));
    proof {
        assert(result@ =~= done + chars@.subrange(kept as int, at as int) + replaced_from(
            chars@,
            from@,
            to@,
            at as int,
        ));
    }
    result
}

/// The pieces of what is left of `text` from position `start` on, where no
/// separator begins before `at`: `text` is cut at each occurrence of the
/// separator `by`, and the occurrences are taken from left to right. An
/// empty separator occurs nowhere.
pub open spec fn pieces_from(text: Seq<char>, by: Seq<char>, start: int, at: int) -> Seq<Seq<char>>
    decreases text.len() - at,
{
    if at < 0 || at >= text.len() || start < 0 || start > at {
        seq![text.subrange(start, text.len() as int)]
    } else if by.len() > 0 && occurs_at(text, at, by) {
        seq![text.subrange(start, at)] + pieces_from(text, by, at + by.len(), at + by.len())
    } else {
        pieces_from(text, by, start, at + 1)
    }
}

/// The pieces that `text` falls into when it is cut at each occurrence of the
/// separator `by`: one more than there are occurrences.
pub open spec fn pieces(text: Seq<char>, by: Seq<char>) -> Seq<Seq<char>> {
    pieces_from(text, by, 0, 0)
}

/// The texts that `parts` hold.
pub open spec fn texts(parts: Seq<String>) -> Seq<Seq<char>> {
    parts.map_values(|part: String| part@)
}

/// Without a separator, what is left of the text is one piece.
proof fn lemma_nothing_cut(text: Seq<char>, start: int, at: int)
    requires
        0 <= start <= at <= text.len(),
    ensures
        pieces_from(text, Seq::empty(), start, at) == seq![text.subrange(start, text.len() as int)],
    decreases text.len() - at,
{
    if at < text.len() {
        lemma_nothing_cut(text, start, at + 1);
    }
}

/// The pieces that `text` falls into when it is cut at each occurrence of the
/// separator `by`.
pub fn split(text: &str, by: &str) -> (parts: Vec<String>)
    ensures
        texts(parts@) == pieces(text@, by@),
{
    let chars = chars_of(text);
    let separator = chars_of(by);
    let mut parts: Vec<String> = Vec::new();
    if separator.len() == 0 {
        parts.push(String::from_str(text));
        proof {
            assert(by@ =~= Seq::<char>::empty());
            lemma_nothing_cut(text@, 0, 0);
            assert(text@.subrange(0, text@.len() as int) =~= text@);
            assert(texts(parts@) =~= seq![text@]);
        }
        return parts;
    }
    let mut start: usize = 0;
    let mut at: usize = 0;
    while at < chars.len()
        invariant
            start <= at <= chars.len(),
            chars@ == text@,
            separator@ == by@,
            separator@.len() > 0,
            texts(parts@) + pieces_from(chars@, by@, start as int, at as int) == pieces(chars@, by@),
        decreases chars.len() - at,
    {
        let ghost done = texts(parts@);
        if occurs(&chars, at, &separator) {
            parts.push(String::from_str(text.substring_char(start, at)));
            proof {
                assert(texts(parts@) =~= done + seq![chars@.subrange(start as int, at as int)]);
                assert(done + (seq![chars@.subrange(start as int, at as int)] + pieces_from(
                    chars@,
                    by@,
                    at + separator@.len(),
                    at + separator@.len(),
                )) =~= done + seq![chars@.subrange(start as int, at as int)] + pieces_from(
                    chars@,
                    by@,
                    at + separator@.len(),
                    at + separator@.len(),
                ));
            }
            at += separator.len();
            start = at;
        } else {
            at += 1;
        }
    }
    let ghost done = texts(parts@);
    parts.push(String::from_str(text.substring_char(start, chars.len())));
    proof {
        assert(texts(parts@) =~= done + seq![chars@.subrange(start as int, chars@.len() as int)]);
    }
    parts
}

/// Whether `c` is white space, as `char::is_whitespace` tells.
pub uninterp spec fn white_space(c: char) -> bool;

/// Calls `char::is_whitespace`. The contract only gives the answer its name,
/// [`white_space`]: which characters Unicode counts as white space is not
/// stated here.
#[verifier::external_body]
fn is_whitespace(c: char) -> (white: bool)
    ensures
        white == white_space(c),
{
    c.is_whitespace()
}

/// For each character of `text`, whether it is white space.
pub open spec fn white_marks(text: Seq<char>) -> Seq<bool> {
    text.map_values(|c: char| white_space(c))
}

/// The first position at or after `from` that is not marked, and the number
/// of marks where there is none.
pub open spec fn first_mark(white: Seq<bool>, from: int) -> int
    decreases white.len() - from,
{
    if from < 0 || from >= white.len() {
        white.len() as int
    } else if white[from] {
        first_mark(white, from + 1)
    } else {
        from
    }
}

/// The position after the last that is not marked, stands before `to` and
/// not before `from`; `from` where there is none.
pub open spec fn last_mark(white: Seq<bool>, from: int, to: int) -> int
    decreases to - from,
{
    if to <= from || to > white.len() {
        from
    } else if white[to - 1] {
        last_mark(white, from, to - 1)
    } else {
        to
    }
}

/// `text` without the characters that it begins and ends with and that
/// `white` marks; `text` itself where `white` does not hold a mark for each
/// of its characters.
pub open spec fn trimmed_where(text: Seq<char>, white: Seq<bool>) -> Seq<char> {
    if white.len() == text.len() {
        let from = first_mark(white, 0);
        text.subrange(from, last_mark(white, from, text.len() as int))
    } else {
        text
    }
}

/// `text` without the white space that it begins and ends with.
pub open spec fn trimmed(text: Seq<char>) -> Seq<char> {
    trimmed_where(text, white_marks(text))
}

/// `text` without the characters that it begins and ends with and that
/// `white` marks.
pub fn trim_where<'a>(text: &'a str, white: &Vec<bool>) -> (inner: &'a str)
    ensures
        inner@ == trimmed_where(text@, white@),
{
    if white.len() != text.unicode_len() {
        return text;
    }
    let mut from: usize = 0;
    while from < white.len() && white[from]
        invariant
            from <= white.len(),
            first_mark(white@, from as int) == first_mark(white@, 0),
        decreases white.len() - from,
    {
        from += 1;
    }
    let mut to: usize = white.len();
    while to > from && white[to - 1]
        invariant
            from <= to <= white.len(),
            last_mark(white@, from as int, to as int) == last_mark(white@, from as int, white@.len() as int),
        decreases to - from,
    {
        to -= 1;
    }
    text.substring_char(from, to)
}

/// `text` without the white space that it begins and ends with.
pub fn trim(text: &str) -> (inner: &str)
    ensures
        inner@ == trimmed(text@),
{
    let chars = chars_of(text);
    let mut white: Vec<bool> = Vec::new();
    let mut k: usize = 0;
    while k < chars.len()
        invariant
            k <= chars.len(),
            chars@ == text@,
            white@ == white_marks(chars@.take(k as int)),
        decreases chars.len() - k,
    {
        let ghost before = white@;
        white.push(is_whitespace(chars[k]));
        proof {
            assert(white_marks(chars@.take(k + 1)) =~= before.push(white_space(chars@[k as int])));
        }
        k += 1;
    }
    proof {
        assert(chars@.take(chars@.len() as int) =~= chars@);
    }
    trim_where(text, &white)
}

/// The digit that `c` stands for, if it is one of `0` to `9`.
pub open spec fn digit_of(c: char) -> Option<nat> {
    if '0' as u32 <= c as u32 && c as u32 <= '9' as u32 {
        Some((c as u32 - '0' as u32) as nat)
    } else {
        None
    }
}

/// The number that the first `n` of `digits` spell in base ten, if they are
/// all digits.
pub open spec fn number_of(digits: Seq<char>, n: int) -> Option<nat>
    decreases n,
{
    if n <= 0 {
        Some(0)
    } else {
        match (number_of(digits, n - 1), digit_of(digits[n - 1])) {
            (Some(before), Some(digit)) => Some(before * 10 + digit),
            _ => None,
        }
    }
}

/// The number that `text` spells: a `+`, which may be left out, and then
/// digits, at least one, for a number of at most sixteen bits.
pub open spec fn spelled_u16(text: Seq<char>) -> Option<u16> {
    let digits = if text.len() > 0 && text[0] == '+' {
        text.drop_first()
    } else {
        text
    };
    match number_of(digits, digits.len() as int) {
        Some(number) => if digits.len() > 0 && number <= u16::MAX {
            Some(number as u16)
        } else {
            None
        },
        None => None,
    }
}

/// Once the first digits spell no number, or one that is too large, more
/// digits do not mend it.
proof fn lemma_number_grows(digits: Seq<char>, k: int, n: int)
    requires
        0 <= k <= n,
    ensures
        number_of(digits, k) is None ==> number_of(digits, n) is None,
        number_of(digits, k) is Some && number_of(digits, n) is Some ==> number_of(digits, k)->Some_0
            <= number_of(digits, n)->Some_0,
    decreases n - k,
{
    if k < n {
        lemma_number_grows(digits, k, n - 1);
    }
}

/// The number that `text` spells: a `+`, which may be left out, and then
/// decimal digits only, at least one, for a number of at most sixteen bits.
pub fn parse_u16(text: &str) -> (number: Option<u16>)
    ensures
        number == spelled_u16(text@),
{
    let chars = chars_of(text);
    let start: usize = if chars.len() > 0 && chars[0] == '+' {
        1
    } else {
        0
    };
    let ghost digits = if start == 1 {
        chars@.drop_first()
    } else {
        chars@
    };
    if start >= chars.len() {
        return None;
    }
    let mut value: u32 = 0;
    let mut at: usize = start;
    while at < chars.len()
        invariant
            start <= at <= chars.len(),
            start <= 1,
            chars@ == text@,
            digits == (if start == 1 {
                chars@.drop_first()
            } else {
                chars@
            }),
            start == 1 <==> chars@.len() > 0 && chars@[0] == '+',
            digits.len() == chars@.len() - start,
            number_of(digits, at - start) == Some(value as nat),
            value <= u16::MAX,
        decreases chars.len() - at,
    {
        let code = chars[at] as u32;
        assert(digits[at - start] == chars@[at as int]);
        if code < 48 || code > 57 {
            proof {
                lemma_number_grows(digits, at - start + 1, digits.len() as int);
            }
            return None;
        }
        let next = value * 10 + (code - 48);
        if next > 65535 {
            proof {
                lemma_number_grows(digits, at - start + 1, digits.len() as int);
            }
            return None;
        }
        value = next;
        at += 1;
    }
    Some(value as u16)
}

/// The decimal spelling of `number`, without leading zeros.
pub open spec fn decimal(number: nat) -> Seq<char>
    decreases number,
{
    if number < 10 {
        seq![digit_char(number)]
    } else {
        decimal(number / 10).push(digit_char(number % 10))
    }
}

/// The character for the digit `digit`.
pub open spec fn digit_char(digit: nat) -> char {
    if digit == 0 {
        '0'
    } else if digit == 1 {
        '1'
    } else if digit == 2 {
        '2'
    } else if digit == 3 {
        '3'
    } else if digit == 4 {
        '4'
    } else if digit == 5 {
        '5'
    } else if digit == 6 {
        '6'
    } else if digit == 7 {
        '7'
    } else if digit == 8 {
        '8'
    } else {
        '9'
    }
}

/// The text of the digit `digit`.
fn digit_text(digit: u16) -> (text: &'static str)
    requires
        digit < 10,
    ensures
        text@ == seq![digit_char(digit as nat)],
{
    proof {
        reveal_strlit("0");
        reveal_strlit("1");
        reveal_strlit("2");
        reveal_strlit("3");
        reveal_strlit("4");
        reveal_strlit("5");
        reveal_strlit("6");
        reveal_strlit("7");
        reveal_strlit("8");
        reveal_strlit("9");
    }
    let text = if digit == 0 {
        "0"
    } else if digit == 1 {
        "1"
    } else if digit == 2 {
        "2"
    } else if digit == 3 {
        "3"
    } else if digit == 4 {
        "4"
    } else if digit == 5 {
        "5"
    } else if digit == 6 {
        "6"
    } else if digit == 7 {
        "7"
    } else if digit == 8 {
        "8"
    } else {
        "9"
    };
    assert(text@ =~= seq![digit_char(digit as nat)]);
    text
}

/// The decimal spelling of `number`.
pub fn decimal_text(number: u16) -> (text: String)
    ensures
        text@ == decimal(number as nat),
    decreases number,
{
    if number < 10 {
        String::from_str(digit_text(number))
    } else {
        let mut text = decimal_text(number / 10);
        text.append(digit_text(number % 10));
        text
    }
}

/// Whether `a` comes before `b` in the order of the dictionary, from position
/// `from` on, where the two agree before it: the first character in which
/// they differ decides, by its code point, and a text comes before each text
/// that it begins.
pub open spec fn text_before_from(a: Seq<char>, b: Seq<char>, from: int) -> bool
    decreases b.len() - from,
{
    if from >= b.len() {
        false
    } else if from >= a.len() {
        true
    } else if a[from] != b[from] {
        (a[from] as u32) < (b[from] as u32)
    } else {
        text_before_from(a, b, from + 1)
    }
}

/// Whether `a` comes before `b` in the order of the dictionary.
pub open spec fn text_before(a: Seq<char>, b: Seq<char>) -> bool {
    text_before_from(a, b, 0)
}

/// Of two texts that agree before `from` and differ, one comes before the
/// other, and never both; no text comes before itself.
pub proof fn lemma_text_order_is_total(a: Seq<char>, b: Seq<char>, from: int)
    requires
        0 <= from,
        from <= a.len(),
        from <= b.len(),
        forall|k: int| 0 <= k < from ==> a[k] == b[k],
    ensures
        a != b ==> text_before_from(a, b, from) || text_before_from(b, a, from),
        !(text_before_from(a, b, from) && text_before_from(b, a, from)),
        a == b ==> !text_before_from(a, b, from),
    decreases a.len() - from,
{
    if from < a.len() && from < b.len() {
        if a[from] == b[from] {
            lemma_text_order_is_total(a, b, from + 1);
        } else {
            vstd::utf8::char_u32_cast(a[from], a[from] as u32);
            vstd::utf8::char_u32_cast(b[from], b[from] as u32);
        }
    } else if from == a.len() && from == b.len() {
        assert(a =~= b);
    }
}

/// The order of the dictionary is transitive.
pub proof fn lemma_text_order_is_transitive(a: Seq<char>, b: Seq<char>, c: Seq<char>, from: int)
    requires
        0 <= from,
        text_before_from(a, b, from),
        text_before_from(b, c, from),
    ensures
        text_before_from(a, c, from),
    decreases c.len() - from,
{
    if from < a.len() && a[from] == b[from] && b[from] == c[from] {
        lemma_text_order_is_transitive(a, b, c, from + 1);
    }
}

/// Whether `a` comes before `b` in the order of the dictionary.
pub fn comes_before(a: &str, b: &str) -> (before: bool)
    ensures
        before == text_before(a@, b@),
{
    let left = chars_of(a);
    let right = chars_of(b);
    let mut i: usize = 0;
    while i < left.len() && i < right.len()
        invariant
            i <= left.len(),
            i <= right.len(),
            left@ == a@,
            right@ == b@,
            text_before_from(left@, right@, i as int) == text_before(left@, right@),
        decreases left.len() - i,
    {
        if left[i] != right[i] {
            return (left[i] as u32) < (right[i] as u32);
        }
        i += 1;
    }
    i < right.len()
}

} // verus!
