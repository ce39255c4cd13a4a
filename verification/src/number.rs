//! The two numeric fields of a record as text: what a quantity and a price
//! look like, what a quantity's text is worth, and how a quantity is written.

use vstd::prelude::*;
use crate::text::{chars_of, sub_chars};

verus! {

/// An ASCII decimal digit.
pub open spec fn is_digit(c: char) -> bool {
    '0' <= c && c <= '9'
}

/// What a digit is worth; zero for any other character.
pub open spec fn digit_value(c: char) -> nat {
    if is_digit(c) {
        (c as int - '0' as int) as nat
    } else {
        0
    }
}

/// The digit that is worth `d`, for `d` below ten.
pub open spec fn digit_char(d: nat) -> char {
    if d == 0 {
        '0'
    } else if d == 1 {
        '1'
    } else if d == 2 {
        '2'
    } else if d == 3 {
        '3'
    } else if d == 4 {
        '4'
    } else if d == 5 {
        '5'
    } else if d == 6 {
        '6'
    } else if d == 7 {
        '7'
    } else if d == 8 {
        '8'
    } else {
        '9'
    }
}

/// Every character of `s` is a digit.
pub open spec fn all_digits(s: Seq<char>) -> bool {
    forall|i: int| 0 <= i < s.len() ==> is_digit(#[trigger] s[i])
}

/// The number that a string of digits writes in base ten, most significant
/// digit first.
pub open spec fn digits_value(s: Seq<char>) -> nat
    decreases s.len(),
{
    if s.len() == 0 {
        0
    } else {
        digits_value(s.drop_last()) * 10 + digit_value(s.last())
    }
}

/// The text starts with `+` or `-`.
pub open spec fn has_sign(s: Seq<char>) -> bool {
    s.len() > 0 && (s[0] == '+' || s[0] == '-')
}

/// The text without its sign, if it has one.
pub open spec fn unsigned_part(s: Seq<char>) -> Seq<char> {
    if has_sign(s) {
        s.skip(1)
    } else {
        s
    }
}

/// The quantity that a field's text stands for: an optional `+` or `-`, then
/// one or more digits and nothing else, worth a number that an `i32` holds.
/// Any other text stands for no quantity.
pub open spec fn quantity_of_text(s: Seq<char>) -> Option<i32> {
    let digits = unsigned_part(s);
    let magnitude = digits_value(digits) as int;
    let value = if s.len() > 0 && s[0] == '-' {
        -magnitude
    } else {
        magnitude
    };
    if digits.len() > 0 && all_digits(digits) && i32::MIN <= value <= i32::MAX {
        Some(value as i32)
    } else {
        None
    }
}

/// A natural number in base ten, without leading zeros.
pub open spec fn nat_text(n: nat) -> Seq<char>
    decreases n,
{
    if n < 10 {
        seq![digit_char(n)]
    } else {
        nat_text(n / 10).push(digit_char(n % 10))
    }
}

/// A quantity as it is written: `-` before a negative one, no sign
/// otherwise, then the digits of its magnitude.
pub open spec fn quantity_text(q: i32) -> Seq<char> {
    if q < 0 {
        seq!['-'] + nat_text((-(q as int)) as nat)
    } else {
        nat_text(q as nat)
    }
}

/// Where the run of digits that starts at `from` ends: the index of the first
/// character at or after `from` that is no digit, or the length of `s`.
pub open spec fn digits_end(s: Seq<char>, from: int) -> int
    decreases s.len() - from,
{
    if 0 <= from < s.len() && is_digit(s[from]) {
        digits_end(s, from + 1)
    } else {
        from
    }
}

/// From index `at` to its end, `s` is an exponent: `e` or `E`, an optional
/// sign, and one or more digits.
pub open spec fn is_exponent_from(s: Seq<char>, at: int) -> bool {
    let digits_from = if at + 1 < s.len() && (s[at + 1] == '+' || s[at + 1] == '-') {
        at + 2
    } else {
        at + 1
    };
    &&& 0 <= at < s.len()
    &&& (s[at] == 'e' || s[at] == 'E')
    &&& digits_end(s, digits_from) > digits_from
    &&& digits_end(s, digits_from) == s.len()
}

/// An unsigned decimal number: digits with at most one `.` among them, before
/// them or after them, at least one digit in all, and then an optional
/// exponent.
pub open spec fn is_decimal_text(s: Seq<char>) -> bool {
    let whole_end = digits_end(s, 0);
    let has_point = whole_end < s.len() && s[whole_end] == '.';
    let mantissa_end = if has_point {
        digits_end(s, whole_end + 1)
    } else {
        whole_end
    };
    let digit_count = if has_point {
        mantissa_end - 1
    } else {
        mantissa_end
    };
    digit_count > 0 && (mantissa_end == s.len() || is_exponent_from(s, mantissa_end))
}

/// `a` and `b` are the same letter, in either case; `b` is a lower-case ASCII
/// letter.
pub open spec fn is_letter(a: char, b: char) -> bool {
    a == b || a as int + 32 == b as int
}

/// `s` spells `word`, a word of lower-case ASCII letters, in any mix of cases.
pub open spec fn spells(s: Seq<char>, word: Seq<char>) -> bool {
    s.len() == word.len() && forall|i: int| 0 <= i < s.len() ==> is_letter(s[i], #[trigger] word[i])
}

/// One of the three names that stand for a price that is no finite number.
pub open spec fn is_special_text(s: Seq<char>) -> bool {
    spells(s, seq!['i', 'n', 'f']) || spells(s, seq!['n', 'a', 'n']) || spells(
        s,
        seq!['i', 'n', 'f', 'i', 'n', 'i', 't', 'y'],
    )
}

/// The texts that write a price: an optional `+` or `-`, then either a
/// decimal number or one of `inf`, `infinity` and `nan` in any mix of cases.
pub open spec fn is_price_text(s: Seq<char>) -> bool {
    is_decimal_text(unsigned_part(s)) || is_special_text(unsigned_part(s))
}

proof fn lemma_digits_value_push(s: Seq<char>, c: char)
    ensures
        digits_value(s.push(c)) == digits_value(s) * 10 + digit_value(c),
{
    assert(s.push(c).drop_last() =~= s);
}

proof fn lemma_digits_value_grows(s: Seq<char>, i: int)
    requires
        0 <= i <= s.len(),
    ensures
        digits_value(s.take(i)) <= digits_value(s),
    decreases s.len() - i,
{
    if i < s.len() {
        lemma_digits_value_grows(s, i + 1);
        assert(s.take(i + 1).drop_last() =~= s.take(i));
    } else {
        assert(s.take(i) =~= s);
    }
}

fn is_digit_char(c: char) -> (r: bool)
    ensures
        r == is_digit(c),
{
    '0' <= c && c <= '9'
}

fn has_sign_char(chars: &Vec<char>) -> (r: bool)
    ensures
        r == has_sign(chars@),
{
    chars.len() > 0 && (chars[0] == '+' || chars[0] == '-')
}

/// The characters after the sign, or all of them where there is no sign.
fn unsigned_chars(chars: &Vec<char>) -> (body: Vec<char>)
    ensures
        body@ == unsigned_part(chars@),
{
    let from: usize = if has_sign_char(chars) {
        1
    } else {
        0
    };
    assert(chars@.skip(from as int) =~= chars@.subrange(from as int, chars@.len() as int));
    assert(chars@.skip(0) =~= chars@);
    sub_chars(chars, from, chars.len())
}

/// Reads a quantity from a field's characters.
pub(crate) fn quantity_of_chars(chars: &Vec<char>) -> (r: Option<i32>)
    ensures
        r == quantity_of_text(chars@),
{
    let negative = chars.len() > 0 && chars[0] == '-';
    let digits = unsigned_chars(chars);
    let n = digits.len();
    if n == 0 {
        return None;
    }
    let limit: i64 = if negative {
        2147483648
    } else {
        2147483647
    };
    let mut acc: i64 = 0;
    let mut i: usize = 0;
    while i < n
        invariant
            i <= n,
            n == digits.len(),
            digits@ == unsigned_part(chars@),
            negative == (chars@.len() > 0 && chars@[0] == '-'),
            limit == if negative { 2147483648i64 } else { 2147483647i64 },
            0 <= acc <= limit,
            acc == digits_value(digits@.take(i as int)),
            all_digits(digits@.take(i as int)),
        decreases n - i,
    {
        let c = digits[i];
        if !is_digit_char(c) {
            assert(!is_digit(digits@[i as int]));
            return None;
        }
        proof {
            assert(digits@.take(i as int + 1) =~= digits@.take(i as int).push(c));
            lemma_digits_value_push(digits@.take(i as int), c);
            lemma_digits_value_grows(digits@, i as int + 1);
        }
        acc = acc * 10 + ((c as u32 - '0' as u32) as i64);
        if acc > limit {
            return None;
        }
        i += 1;
    }
    assert(digits@.take(n as int) =~= digits@);
    if negative {
        Some((-acc) as i32)
    } else {
        Some(acc as i32)
    }
}

/// Reads a quantity from a field's text.
pub fn parse_quantity(text: &str) -> (r: Option<i32>)
    ensures
        r == quantity_of_text(text@),
{
    let chars = chars_of(text);
    quantity_of_chars(&chars)
}

fn digit_of(d: u32) -> (c: char)
    requires
        d < 10,
    ensures
        c == digit_char(d as nat),
{
    (('0' as u8) + (d as u8)) as char
}

/// Appends `n` in base ten to `out`.
fn push_nat(out: &mut String, n: u32)
    ensures
        final(out)@ == old(out)@ + nat_text(n as nat),
    decreases n,
{
    if n >= 10 {
        push_nat(out, n / 10);
    }
    out.push(digit_of(n % 10));
}

/// Appends a quantity, as it is written, to `out`.
pub(crate) fn push_quantity(out: &mut String, q: i32)
    ensures
        final(out)@ == old(out)@ + quantity_text(q),
{
    if q < 0 {
        out.push('-');
        push_nat(out, (-(q as i64)) as u32);
        assert(out@ =~= old(out)@ + quantity_text(q));
    } else {
        push_nat(out, q as u32);
    }
}

/// Writes a quantity.
pub fn render_quantity(q: i32) -> (s: String)
    ensures
        s@ == quantity_text(q),
{
    let mut s = String::new();
    push_quantity(&mut s, q);
    s
}

/// Where the run of digits that starts at `from` ends.
fn scan_digits(chars: &Vec<char>, from: usize) -> (end: usize)
    requires
        from <= chars.len(),
    ensures
        end == digits_end(chars@, from as int),
        from <= end <= chars.len(),
{
    let mut i: usize = from;
    while i < chars.len() && is_digit_char(chars[i])
        invariant
            from <= i <= chars.len(),
            digits_end(chars@, from as int) == digits_end(chars@, i as int),
        decreases chars.len() - i,
    {
        i += 1;
    }
    i
}

/// Whether the characters from `at` on are an exponent.
fn is_exponent_chars(chars: &Vec<char>, at: usize) -> (r: bool)
    requires
        at < chars.len(),
    ensures
        r == is_exponent_from(chars@, at as int),
{
    if chars[at] != 'e' && chars[at] != 'E' {
        return false;
    }
    let digits_from: usize = if at + 1 < chars.len() && (chars[at + 1] == '+' || chars[at + 1]
        == '-') {
        at + 2
    } else {
        at + 1
    };
    let end = scan_digits(chars, digits_from);
    end > digits_from && end == chars.len()
}

/// Whether the characters write an unsigned decimal number.
fn is_decimal_chars(chars: &Vec<char>) -> (r: bool)
    ensures
        r == is_decimal_text(chars@),
{
    let whole_end = scan_digits(chars, 0);
    let has_point = whole_end < chars.len() && chars[whole_end] == '.';
    let mantissa_end: usize = if has_point {
        scan_digits(chars, whole_end + 1)
    } else {
        whole_end
    };
    let digit_count: usize = if has_point {
        mantissa_end - 1
    } else {
        mantissa_end
    };
    if digit_count == 0 {
        return false;
    }
    mantissa_end == chars.len() || is_exponent_chars(chars, mantissa_end)
}

fn is_letter_char(a: char, b: char) -> (r: bool)
    ensures
        r == is_letter(a, b),
{
    a == b || (a as u32) + 32 == (b as u32)
}

/// Whether the characters spell `word` in any mix of cases.
fn spells_chars(chars: &Vec<char>, word: &Vec<char>) -> (r: bool)
    ensures
        r == spells(chars@, word@),
{
    if chars.len() != word.len() {
        return false;
    }
    let mut i: usize = 0;
    while i < chars.len()
        invariant
            i <= chars.len(),
            chars.len() == word.len(),
            forall|k: int| 0 <= k < i ==> is_letter(chars@[k], #[trigger] word@[k]),
        decreases chars.len() - i,
    {
        if !is_letter_char(chars[i], word[i]) {
            return false;
        }
        i += 1;
    }
    true
}

/// Whether the characters spell `inf`, `infinity` or `nan`.
fn is_special_chars(chars: &Vec<char>) -> (r: bool)
    ensures
        r == is_special_text(chars@),
{
    let inf = vec!['i', 'n', 'f'];
    let nan = vec!['n', 'a', 'n'];
    let infinity = vec!['i', 'n', 'f', 'i', 'n', 'i', 't', 'y'];
    assert(inf@ =~= seq!['i', 'n', 'f']);
    assert(nan@ =~= seq!['n', 'a', 'n']);
    assert(infinity@ =~= seq!['i', 'n', 'f', 'i', 'n', 'i', 't', 'y']);
    spells_chars(chars, &inf) || spells_chars(chars, &nan) || spells_chars(chars, &infinity)
}

/// Whether a field's characters write a price.
pub(crate) fn is_price_chars(chars: &Vec<char>) -> (r: bool)
    ensures
        r == is_price_text(chars@),
{
    let body = unsigned_chars(chars);
    is_decimal_chars(&body) || is_special_chars(&body)
}

/// Whether a field's text writes a price.
pub fn is_price(text: &str) -> (r: bool)
    ensures
        r == is_price_text(text@),
{
    let chars = chars_of(text);
    is_price_chars(&chars)
}

/// A character that the text of a number may hold: a digit, a sign, a point
/// or an ASCII letter.
pub open spec fn is_number_char(c: char) -> bool {
    is_digit(c) || c == '+' || c == '-' || c == '.' || ('a' <= c && c <= 'z') || ('A' <= c && c
        <= 'Z')
}

/// Every character of `s` may stand in the text of a number.
pub open spec fn all_number_chars(s: Seq<char>) -> bool {
    forall|i: int| 0 <= i < s.len() ==> is_number_char(#[trigger] s[i])
}

proof fn lemma_nat_text(n: nat)
    ensures
        nat_text(n).len() > 0,
        all_digits(nat_text(n)),
        digits_value(nat_text(n)) == n,
    decreases n,
{
    if n >= 10 {
        lemma_nat_text(n / 10);
        lemma_digits_value_push(nat_text(n / 10), digit_char(n % 10));
        assert(digit_value(digit_char(n % 10)) == n % 10);
    } else {
        assert(nat_text(n).drop_last() =~= Seq::<char>::empty());
        assert(digits_value(Seq::<char>::empty()) == 0);
        assert(digit_value(digit_char(n)) == n);
    }
}

/// What is written for a quantity reads back as that quantity.
pub proof fn lemma_quantity_round_trip(q: i32)
    ensures
        quantity_of_text(quantity_text(q)) == Some(q),
{
    if q < 0 {
        let magnitude = (-(q as int)) as nat;
        lemma_nat_text(magnitude);
        assert(unsigned_part(quantity_text(q)) =~= nat_text(magnitude));
    } else {
        lemma_nat_text(q as nat);
        assert(is_digit(nat_text(q as nat)[0]));
    }
}

/// What is written for a quantity is a `-` or nothing, then digits, and so
/// ends in a digit.
pub proof fn lemma_quantity_text_chars(q: i32)
    ensures
        quantity_text(q).len() > 0,
        is_digit(quantity_text(q).last()),
        all_number_chars(quantity_text(q)),
{
    let text = quantity_text(q);
    if q < 0 {
        let magnitude = (-(q as int)) as nat;
        lemma_nat_text(magnitude);
        assert forall|i: int| 0 <= i < text.len() implies is_number_char(#[trigger] text[i]) by {
            if i > 0 {
                assert(text[i] == nat_text(magnitude)[i - 1]);
            }
        }
        assert(text.last() == nat_text(magnitude).last());
    } else {
        lemma_nat_text(q as nat);
    }
}

proof fn lemma_digits_run(s: Seq<char>, from: int)
    requires
        0 <= from,
    ensures
        from <= digits_end(s, from),
        from <= s.len() ==> digits_end(s, from) <= s.len(),
        forall|i: int| from <= i < digits_end(s, from) ==> is_digit(#[trigger] s[i]),
    decreases s.len() - from,
{
    if from < s.len() && is_digit(s[from]) {
        lemma_digits_run(s, from + 1);
    }
}

/// The text of a price holds digits, signs, points and ASCII letters only.
pub proof fn lemma_price_text_chars(s: Seq<char>)
    requires
        is_price_text(s),
    ensures
        all_number_chars(s),
{
    let body = unsigned_part(s);
    assert forall|i: int| 0 <= i < body.len() implies is_number_char(#[trigger] body[i]) by {
        if is_decimal_text(body) {
            let whole_end = digits_end(body, 0);
            lemma_digits_run(body, 0);
            let has_point = whole_end < body.len() && body[whole_end] == '.';
            let mantissa_end = if has_point {
                digits_end(body, whole_end + 1)
            } else {
                whole_end
            };
            if has_point {
                lemma_digits_run(body, whole_end + 1);
            }
            if mantissa_end < body.len() {
                let digits_from = if mantissa_end + 1 < body.len() && (body[mantissa_end + 1]
                    == '+' || body[mantissa_end + 1] == '-') {
                    mantissa_end + 2
                } else {
                    mantissa_end + 1
                };
                lemma_digits_run(body, digits_from);
            }
        } else {
            let inf = seq!['i', 'n', 'f'];
            let nan = seq!['n', 'a', 'n'];
            let infinity = seq!['i', 'n', 'f', 'i', 'n', 'i', 't', 'y'];
            if spells(body, inf) {
                assert(is_letter(body[i], inf[i]));
            } else if spells(body, nan) {
                assert(is_letter(body[i], nan[i]));
            } else {
                assert(is_letter(body[i], infinity[i]));
            }
        }
    }
    assert forall|i: int| 0 <= i < s.len() implies is_number_char(#[trigger] s[i]) by {
        if has_sign(s) {
            if i > 0 {
                assert(s[i] == body[i - 1]);
            }
        }
    }
}

/// An exponent: `e` or `E`, an optional sign, and one or more digits.
pub open spec fn is_exponent_text(s: Seq<char>) -> bool {
    &&& s.len() > 0
    &&& (s[0] == 'e' || s[0] == 'E')
    &&& unsigned_part(s.skip(1)).len() > 0
    &&& all_digits(unsigned_part(s.skip(1)))
}

/// `s` is made of the digits `whole`, a point if `point` says so, the digits
/// `fraction` and then `exponent`, where a fraction needs the point, the
/// digits on the two sides of the point are one or more in all, and
/// `exponent` is an exponent or empty.
pub open spec fn is_decimal_of(
    s: Seq<char>,
    whole: Seq<char>,
    point: bool,
    fraction: Seq<char>,
    exponent: Seq<char>,
) -> bool {
    &&& s == whole + (if point {
        seq!['.']
    } else {
        seq![]
    }) + fraction + exponent
    &&& all_digits(whole)
    &&& all_digits(fraction)
    &&& whole.len() + fraction.len() > 0
    &&& (point || fraction.len() == 0)
    &&& (exponent.len() == 0 || is_exponent_text(exponent))
}

proof fn lemma_digits_end(s: Seq<char>, from: int, to: int)
    requires
        0 <= from <= to <= s.len(),
        forall|i: int| from <= i < to ==> is_digit(#[trigger] s[i]),
        to < s.len() ==> !is_digit(s[to]),
    ensures
        digits_end(s, from) == to,
    decreases to - from,
{
    if from < to {
        lemma_digits_end(s, from + 1, to);
    }
}

/// An unsigned decimal number falls into its parts: the digits before the
/// point, the point or none, the digits after it, and the exponent or
/// nothing.
pub proof fn lemma_decimal_has_parts(s: Seq<char>) -> (parts: (
    Seq<char>,
    bool,
    Seq<char>,
    Seq<char>,
))
    requires
        is_decimal_text(s),
    ensures
        is_decimal_of(s, parts.0, parts.1, parts.2, parts.3),
{
    let whole_end = digits_end(s, 0);
    lemma_digits_run(s, 0);
    let point = whole_end < s.len() && s[whole_end] == '.';
    let mantissa_end = if point {
        digits_end(s, whole_end + 1)
    } else {
        whole_end
    };
    if point {
        lemma_digits_run(s, whole_end + 1);
    }
    let whole = s.subrange(0, whole_end);
    let fraction = if point {
        s.subrange(whole_end + 1, mantissa_end)
    } else {
        Seq::<char>::empty()
    };
    let exponent = s.subrange(mantissa_end, s.len() as int);
    let mark = if point {
        seq!['.']
    } else {
        seq![]
    };
    assert(s =~= whole + mark + fraction + exponent);
    assert(exponent.len() == 0 || is_exponent_text(exponent)) by {
        if exponent.len() > 0 {
            let digits_from = if mantissa_end + 1 < s.len() && (s[mantissa_end + 1] == '+'
                || s[mantissa_end + 1] == '-') {
                mantissa_end + 2
            } else {
                mantissa_end + 1
            };
            lemma_digits_run(s, digits_from);
            assert(exponent.skip(1) =~= s.subrange(mantissa_end + 1, s.len() as int));
            assert(unsigned_part(exponent.skip(1)) =~= s.subrange(digits_from, s.len() as int));
        }
    }
    (whole, point, fraction, exponent)
}

proof fn lemma_exponent_from(s: Seq<char>, at: int, exponent: Seq<char>)
    requires
        0 <= at < s.len(),
        exponent == s.subrange(at, s.len() as int),
        is_exponent_text(exponent),
    ensures
        is_exponent_from(s, at),
{
    let tail = exponent.skip(1);
    let digits = unsigned_part(tail);
    let digits_from = s.len() - digits.len();
    assert(s[at] == exponent[0]);
    assert(s[at + 1] == tail[0]);
    if !has_sign(tail) {
        assert(is_digit(digits[0]));
    }
    assert forall|i: int| digits_from <= i < s.len() implies is_digit(#[trigger] s[i]) by {
        assert(s[i] == digits[i - digits_from]);
    }
    lemma_digits_end(s, digits_from, s.len() as int);
}

/// A text made of digits, a point or none, digits and an exponent or
/// nothing, with a digit on one side of the point at least and no digits
/// after a point that is not there, is an unsigned decimal number.
pub proof fn lemma_parts_make_decimal(
    s: Seq<char>,
    whole: Seq<char>,
    point: bool,
    fraction: Seq<char>,
    exponent: Seq<char>,
)
    requires
        is_decimal_of(s, whole, point, fraction, exponent),
    ensures
        is_decimal_text(s),
{
    let mark: Seq<char> = if point {
        seq!['.']
    } else {
        seq![]
    };
    let whole_end = whole.len() as int;
    let mantissa_end = whole_end + mark.len() + fraction.len();
    assert forall|i: int| 0 <= i < whole_end implies is_digit(#[trigger] s[i]) by {
        assert(s[i] == whole[i]);
    }
    if exponent.len() > 0 {
        assert(s[mantissa_end] == exponent[0]);
        assert(exponent =~= s.subrange(mantissa_end, s.len() as int));
        lemma_exponent_from(s, mantissa_end, exponent);
    }
    if point {
        assert(s[whole_end] == '.');
        lemma_digits_end(s, 0, whole_end);
        assert forall|i: int| whole_end + 1 <= i < mantissa_end implies is_digit(
            #[trigger] s[i],
        ) by {
            assert(s[i] == fraction[i - whole_end - 1]);
        }
        lemma_digits_end(s, whole_end + 1, mantissa_end);
    } else {
        lemma_digits_end(s, 0, whole_end);
    }
}

} // verus!
