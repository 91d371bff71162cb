//! Fixed-point decimal numbers in text: reading them and writing them.
//!
//! A number is held as a whole count of thousandths. In text it is an
//! optional sign, digits, and optionally a point and more digits, with at
//! least one digit in all. It is read as the nearest thousandth, a half
//! away from zero; a decimal number too large to be held is read as the
//! infinity of its sign. There is no exponent. After the optional sign the words
//! `inf`, `infinity` and `nan`, in either case of each letter, stand for the
//! infinities and for the outcome that is no number.

use vstd::prelude::*;
use vstd::slice::slice_subrange;
use crate::model::Value;
use crate::number::Number;

verus! {

/// The byte `0`.
pub const DIGIT_ZERO: u8 = 48;

/// The byte `9`.
pub const DIGIT_NINE: u8 = 57;

/// The byte `+`.
pub const PLUS: u8 = 43;

/// The byte `-`.
pub const MINUS: u8 = 45;

/// The byte `.`.
pub const POINT: u8 = 46;

/// How many units make one.
pub const SCALE: u64 = 1000;

/// The largest magnitude, in thousandths, that a number can have.
pub const MAX_UNITS: u64 = 0x7fff_ffff_ffff_ffff;

/// The byte is a decimal digit.
pub open spec fn is_digit(b: u8) -> bool {
    DIGIT_ZERO <= b <= DIGIT_NINE
}

/// Every byte is a decimal digit.
pub open spec fn all_digits(s: Seq<u8>) -> bool {
    forall|i: int| 0 <= i < s.len() ==> is_digit(#[trigger] s[i])
}

/// The number that a digit stands for.
pub open spec fn digit_of(b: u8) -> nat {
    if is_digit(b) {
        (b - DIGIT_ZERO) as nat
    } else {
        0
    }
}

/// The number that a sequence of digits spells.
pub open spec fn digits_value(s: Seq<u8>) -> nat
    decreases s.len(),
{
    if s.len() == 0 {
        0
    } else {
        digits_value(s.drop_last()) * 10 + digit_of(s.last())
    }
}

/// The index of the first `b` in `s`, or the length of `s` if there is none.
pub open spec fn first_index(s: Seq<u8>, b: u8) -> int
    decreases s.len(),
{
    if s.len() == 0 || s[0] == b {
        0
    } else {
        1 + first_index(s.drop_first(), b)
    }
}

/// The first index of a byte is the one place that holds it with none before.
pub proof fn lemma_first_index(s: Seq<u8>, b: u8, i: int)
    requires
        0 <= i <= s.len(),
        forall|j: int| 0 <= j < i ==> s[j] != b,
        i < s.len() ==> s[i] == b,
    ensures
        first_index(s, b) == i,
    decreases s.len(),
{
    if i > 0 {
        let t = s.drop_first();
        assert forall|j: int| 0 <= j < i - 1 implies t[j] != b by {
            assert(t[j] == s[j + 1]);
        }
        lemma_first_index(t, b, i - 1);
    }
}

/// A longer sequence of digits spells no smaller number than its beginning.
pub proof fn lemma_digits_value_grows(s: Seq<u8>, n: int)
    requires
        0 <= n <= s.len(),
    ensures
        digits_value(s.take(n)) <= digits_value(s),
    decreases s.len() - n,
{
    if n == s.len() {
        assert(s.take(n) =~= s);
    } else {
        lemma_digits_value_grows(s.drop_last(), n);
        assert(s.drop_last().take(n) =~= s.take(n));
    }
}

/// The length of the sign at the head of a number.
pub open spec fn sign_len(text: Seq<u8>) -> int {
    if text.len() > 0 && (text[0] == MINUS || text[0] == PLUS) {
        1
    } else {
        0
    }
}

/// The digits before the point.
pub open spec fn whole_part(text: Seq<u8>) -> Seq<u8> {
    let body = text.skip(sign_len(text));
    body.take(first_index(body, POINT))
}

/// The digits after the point; empty where there is no point.
pub open spec fn fraction_part(text: Seq<u8>) -> Seq<u8> {
    let body = text.skip(sign_len(text));
    let p = first_index(body, POINT);
    if p < body.len() {
        body.skip(p + 1)
    } else {
        Seq::empty()
    }
}

/// The text has the shape of a decimal number.
pub open spec fn is_decimal(text: Seq<u8>) -> bool {
    &&& all_digits(whole_part(text))
    &&& all_digits(fraction_part(text))
    &&& whole_part(text).len() + fraction_part(text).len() >= 1
}

/// The digit at a place of a fraction, zero beyond its end.
pub open spec fn digit_at(fraction: Seq<u8>, place: int) -> nat {
    if 0 <= place < fraction.len() {
        digit_of(fraction[place])
    } else {
        0
    }
}

/// The thousandths that the first three digits of a fraction spell.
pub open spec fn fraction_value(fraction: Seq<u8>) -> nat {
    100 * digit_at(fraction, 0) + 10 * digit_at(fraction, 1) + digit_at(fraction, 2)
}

/// One where the digits after the third make half a thousandth or more.
pub open spec fn round_up(fraction: Seq<u8>) -> nat {
    if digit_at(fraction, 3) >= 5 {
        1
    } else {
        0
    }
}

/// The magnitude of a decimal number in thousandths, to the nearest.
pub open spec fn magnitude(text: Seq<u8>) -> nat {
    digits_value(whole_part(text)) * SCALE as nat + fraction_value(fraction_part(text)) + round_up(
        fraction_part(text),
    )
}

/// The number that a text spells, to the nearest thousandth: none where the
/// text is no decimal number or its magnitude is beyond `MAX_UNITS`.
pub open spec fn decimal_units(text: Seq<u8>) -> Option<int> {
    if is_decimal(text) && magnitude(text) <= MAX_UNITS {
        if text[0] == MINUS {
            Some(-(magnitude(text) as int))
        } else {
            Some(magnitude(text) as int)
        }
    } else {
        None
    }
}

/// The byte in lower case.
pub open spec fn lowered(b: u8) -> u8 {
    if 65 <= b <= 90 {
        (b + 32) as u8
    } else {
        b
    }
}

/// The bytes spell `inf`, in either case of each letter.
pub open spec fn spells_inf(s: Seq<u8>) -> bool {
    &&& s.len() == 3
    &&& lowered(s[0]) == 105
    &&& lowered(s[1]) == 110
    &&& lowered(s[2]) == 102
}

/// The bytes spell `infinity`, in either case of each letter.
pub open spec fn spells_infinity(s: Seq<u8>) -> bool {
    &&& s.len() == 8
    &&& lowered(s[0]) == 105
    &&& lowered(s[1]) == 110
    &&& lowered(s[2]) == 102
    &&& lowered(s[3]) == 105
    &&& lowered(s[4]) == 110
    &&& lowered(s[5]) == 105
    &&& lowered(s[6]) == 116
    &&& lowered(s[7]) == 121
}

/// The bytes spell `nan`, in either case of each letter.
pub open spec fn spells_nan(s: Seq<u8>) -> bool {
    &&& s.len() == 3
    &&& lowered(s[0]) == 110
    &&& lowered(s[1]) == 97
    &&& lowered(s[2]) == 110
}

/// The text spells a value: it has the shape of a decimal number, or after
/// its sign stands one of the words `inf`, `infinity`, `nan`.
pub open spec fn spells_value(text: Seq<u8>) -> bool {
    let body = text.skip(sign_len(text));
    is_decimal(text) || spells_inf(body) || spells_infinity(body) || spells_nan(body)
}

/// The value that a text spells: an infinity or the outcome that is no
/// number where the text after the sign is the word for it, else the decimal
/// number that the text spells, which is the infinity of its sign where its
/// magnitude is beyond `MAX_UNITS`; none where it spells neither.
pub open spec fn number_of(text: Seq<u8>) -> Option<Value> {
    let body = text.skip(sign_len(text));
    if spells_inf(body) || spells_infinity(body) {
        if text[0] == MINUS {
            Some(Value::MinusInfinity)
        } else {
            Some(Value::PlusInfinity)
        }
    } else if spells_nan(body) {
        Some(Value::NotANumber)
    } else {
        match decimal_units(text) {
            Some(v) => Some(Value::Finite(v)),
            None => if !is_decimal(text) {
                None
            } else if text[0] == MINUS {
                Some(Value::MinusInfinity)
            } else {
                Some(Value::PlusInfinity)
            },
        }
    }
}

/// The text of a value: `inf`, `-inf`, `NaN`, or the text of the finite
/// number.
pub open spec fn number_text(v: Value) -> Seq<u8> {
    match v {
        Value::Finite(x) => decimal_text(x),
        Value::PlusInfinity => seq![105u8, 110u8, 102u8],
        Value::MinusInfinity => seq![MINUS, 105u8, 110u8, 102u8],
        Value::NotANumber => seq![78u8, 97u8, 78u8],
    }
}

/// The byte of a digit.
pub open spec fn digit_byte(d: int) -> u8 {
    (DIGIT_ZERO + d) as u8
}

/// The decimal digits of a natural number.
pub open spec fn nat_text(n: nat) -> Seq<u8>
    decreases n,
{
    if n < 10 {
        seq![digit_byte(n as int)]
    } else {
        nat_text(n / 10).push(digit_byte((n % 10) as int))
    }
}

/// The text of a fraction of `r` thousandths: nothing where it is zero, else
/// a point and up to three digits, of which the last is not zero.
pub open spec fn fraction_text(r: int) -> Seq<u8> {
    if r == 0 {
        Seq::empty()
    } else if r % 100 == 0 {
        seq![POINT, digit_byte(r / 100)]
    } else if r % 10 == 0 {
        seq![POINT, digit_byte(r / 100), digit_byte(r / 10 % 10)]
    } else {
        seq![POINT, digit_byte(r / 100), digit_byte(r / 10 % 10), digit_byte(r % 10)]
    }
}

/// The text of a number of thousandths: a minus sign where it is negative,
/// the whole part, and the fraction where it is not zero.
pub open spec fn decimal_text(v: int) -> Seq<u8> {
    let mag = if v < 0 { -v } else { v };
    let sign = if v < 0 { seq![MINUS] } else { Seq::<u8>::empty() };
    sign + nat_text((mag / SCALE as int) as nat) + fraction_text(mag % SCALE as int)
}

/// The digits of a number are digits, at least one, and spell the number.
pub proof fn lemma_nat_text(n: nat)
    ensures
        all_digits(nat_text(n)),
        nat_text(n).len() >= 1,
        digits_value(nat_text(n)) == n,
    decreases n,
{
    if n < 10 {
        let t = nat_text(n);
        assert(t.len() == 1);
        assert(t[0] == digit_byte(n as int));
        assert(t.drop_last() =~= Seq::<u8>::empty());
        assert(digits_value(t) == digits_value(t.drop_last()) * 10 + digit_of(t.last()));
    } else {
        lemma_nat_text(n / 10);
        let front = nat_text(n / 10);
        let t = front.push(digit_byte((n % 10) as int));
        assert(t.drop_last() =~= front);
        assert(digits_value(t) == digits_value(t.drop_last()) * 10 + digit_of(t.last()));
    }
}

/// The fraction of a text: after the point stand digits that spell it.
pub proof fn lemma_fraction_text(r: int)
    requires
        0 <= r < 1000,
    ensures
        r == 0 ==> fraction_text(r).len() == 0,
        r != 0 ==> fraction_text(r).len() >= 2 && fraction_text(r)[0] == POINT,
        r != 0 ==> all_digits(fraction_text(r).skip(1)),
        r != 0 ==> fraction_value(fraction_text(r).skip(1)) == r,
        r != 0 ==> fraction_text(r).len() <= 4,
{
    let a = r / 100;
    let b = r / 10 % 10;
    let c = r % 10;
    assert(r == 100 * a + 10 * b + c);
    if r != 0 {
        let digits = fraction_text(r).skip(1);
        if r % 100 == 0 {
            assert(digits =~= seq![digit_byte(a)]);
            assert(b == 0 && c == 0);
        } else if r % 10 == 0 {
            assert(digits =~= seq![digit_byte(a), digit_byte(b)]);
            assert(c == 0);
        } else {
            assert(digits =~= seq![digit_byte(a), digit_byte(b), digit_byte(c)]);
        }
        assert(digit_at(digits, 0) == a);
        assert(digit_at(digits, 1) == b);
        assert(digit_at(digits, 2) == c);
    }
}

/// The text of a number within the limits reads back as that number.
pub proof fn lemma_text_reads_back(v: int)
    requires
        -MAX_UNITS <= v <= MAX_UNITS,
    ensures
        decimal_units(decimal_text(v)) == Some(v),
        is_digit(decimal_text(v).skip(sign_len(decimal_text(v)))[0]),
{
    let mag = if v < 0 { -v } else { v };
    let r = mag % 1000;
    let sign = if v < 0 { seq![MINUS] } else { Seq::<u8>::empty() };
    let whole = nat_text((mag / 1000) as nat);
    let tail = fraction_text(r);
    let text = decimal_text(v);
    lemma_nat_text((mag / 1000) as nat);
    lemma_fraction_text(r);
    assert(is_digit(whole[0]));
    assert(text =~= sign + whole + tail);
    assert(text[0] == if v < 0 { MINUS } else { whole[0] });
    let body = text.skip(sign_len(text));
    assert(body =~= whole + tail);
    assert forall|j: int| 0 <= j < whole.len() implies body[j] != POINT by {
        assert(is_digit(whole[j]));
    }
    if tail.len() > 0 {
        assert(body[whole.len() as int] == tail[0]);
    }
    lemma_first_index(body, POINT, whole.len() as int);
    assert(whole_part(text) =~= whole);
    if r == 0 {
        assert(fraction_part(text) =~= Seq::<u8>::empty());
    } else {
        assert(fraction_part(text) =~= tail.skip(1));
    }
    assert(magnitude(text) == mag);
}

/// The text of a value that a reading can have reads back as that value.
pub proof fn lemma_number_reads_back(v: Value)
    requires
        v matches Value::Finite(x) ==> -MAX_UNITS <= x <= MAX_UNITS,
    ensures
        number_of(number_text(v)) == Some(v),
{
    let text = number_text(v);
    let body = text.skip(sign_len(text));
    match v {
        Value::Finite(x) => {
            lemma_text_reads_back(x);
        },
        Value::PlusInfinity => {
            assert(body =~= seq![105u8, 110u8, 102u8]);
        },
        Value::MinusInfinity => {
            assert(body =~= seq![105u8, 110u8, 102u8]);
        },
        Value::NotANumber => {
            assert(body =~= seq![78u8, 97u8, 78u8]);
        },
    }
}

/// The index of the first `b` in `s`, or the length of `s`.
pub fn find_byte(s: &[u8], b: u8) -> (i: usize)
    ensures
        i == first_index(s@, b),
        i <= s.len(),
{
    let mut i: usize = 0;
    while i < s.len() && s[i] != b
        invariant
            i <= s.len(),
            forall|j: int| 0 <= j < i ==> s@[j] != b,
        decreases s.len() - i,
    {
        i = i + 1;
    }
    proof {
        lemma_first_index(s@, b, i as int);
    }
    i
}

/// Whether every byte is a digit.
pub fn only_digits(s: &[u8]) -> (r: bool)
    ensures
        r == all_digits(s@),
{
    let mut i: usize = 0;
    while i < s.len()
        invariant
            i <= s.len(),
            forall|j: int| 0 <= j < i ==> is_digit(#[trigger] s@[j]),
        decreases s.len() - i,
    {
        if s[i] < DIGIT_ZERO || s[i] > DIGIT_NINE {
            return false;
        }
        i = i + 1;
    }
    true
}

/// The number that digits spell, where it is at most `limit`.
pub fn digits_to_number(s: &[u8], limit: u64) -> (r: Option<u64>)
    requires
        all_digits(s@),
    ensures
        r.is_some() <==> digits_value(s@) <= limit,
        r.is_some() ==> r.unwrap() == digits_value(s@),
{
    let mut acc: u64 = 0;
    let mut i: usize = 0;
    proof {
        assert(s@.take(0) =~= Seq::<u8>::empty());
    }
    while i < s.len()
        invariant
            i <= s.len(),
            all_digits(s@),
            acc == digits_value(s@.take(i as int)),
            acc <= limit,
        decreases s.len() - i,
    {
        let d: u64 = (s[i] - DIGIT_ZERO) as u64;
        proof {
            assert(s@.take(i + 1).drop_last() =~= s@.take(i as int));
            assert(s@.take(i + 1).last() == s@[i as int]);
            lemma_digits_value_grows(s@, i + 1);
        }
        if d > limit || acc > (limit - d) / 10 {
            return None;
        }
        acc = acc * 10 + d;
        i = i + 1;
    }
    proof {
        assert(s@.take(i as int) =~= s@);
    }
    Some(acc)
}

/// The digit at a place of a fraction, zero beyond its end.
pub fn digit_in(fraction: &[u8], place: usize) -> (d: u64)
    requires
        all_digits(fraction@),
    ensures
        d == digit_at(fraction@, place as int),
        d <= 9,
{
    if place < fraction.len() {
        (fraction[place] - DIGIT_ZERO) as u64
    } else {
        0
    }
}

/// What stands before the point of a number and what stands after it, the
/// sign left out.
pub fn split_at_point(text: &[u8]) -> (r: (&[u8], &[u8]))
    ensures
        r.0@ == whole_part(text@),
        r.1@ == fraction_part(text@),
{
    let start: usize = if text.len() > 0 && (text[0] == MINUS || text[0] == PLUS) { 1 } else { 0 };
    let body = slice_subrange(text, start, text.len());
    let p = find_byte(body, POINT);
    let whole = slice_subrange(body, 0, p);
    let fraction = if p < body.len() {
        slice_subrange(body, p + 1, body.len())
    } else {
        slice_subrange(body, 0, 0)
    };
    proof {
        assert(body@ =~= text@.skip(sign_len(text@)));
        assert(whole@ =~= whole_part(text@));
        assert(fraction@ =~= fraction_part(text@));
    }
    (whole, fraction)
}

/// Whether the text has the shape of a decimal number.
pub fn has_decimal_shape(text: &[u8]) -> (r: bool)
    ensures
        r == is_decimal(text@),
{
    let (whole, fraction) = split_at_point(text);
    only_digits(whole) && only_digits(fraction) && (whole.len() > 0 || fraction.len() > 0)
}

/// Reads a decimal number as a count of thousandths.
pub fn parse_decimal(text: &[u8]) -> (r: Option<i64>)
    ensures
        match r {
            Some(v) => decimal_units(text@) == Some(v as int),
            None => decimal_units(text@).is_none(),
        },
{
    let negative = text.len() > 0 && text[0] == MINUS;
    let (whole, fraction) = split_at_point(text);
    if !only_digits(whole) || !only_digits(fraction) || (whole.len() == 0 && fraction.len() == 0) {
        return None;
    }
    let up: u64 = if digit_in(fraction, 3) >= 5 { 1 } else { 0 };
    let part: u64 = 100 * digit_in(fraction, 0) + 10 * digit_in(fraction, 1) + digit_in(fraction, 2) + up;
    match digits_to_number(whole, (MAX_UNITS - part) / SCALE) {
        None => None,
        Some(n) => {
            let mag: u64 = n * SCALE + part;
            if negative {
                Some(-(mag as i64))
            } else {
                Some(mag as i64)
            }
        },
    }
}

/// The byte in lower case.
pub fn lower(b: u8) -> (r: u8)
    ensures
        r == lowered(b),
{
    if 65 <= b && b <= 90 {
        b + 32
    } else {
        b
    }
}

/// Reads a number: a decimal number to the nearest thousandth, or as the
/// infinity of its sign where it is too large to be held, or one of the
/// words for an infinity or for the outcome that is no number.
pub fn parse_number(text: &[u8]) -> (r: Option<Number>)
    ensures
        match r {
            Some(n) => number_of(text@) == Some(n@) && n.is_reading(),
            None => number_of(text@).is_none(),
        },
{
    let start: usize = if text.len() > 0 && (text[0] == MINUS || text[0] == PLUS) { 1 } else { 0 };
    let negative = text.len() > 0 && text[0] == MINUS;
    let body = slice_subrange(text, start, text.len());
    proof {
        assert(body@ =~= text@.skip(sign_len(text@)));
    }
    let n = body.len();
    let inf = n >= 3 && lower(body[0]) == 105 && lower(body[1]) == 110 && lower(body[2]) == 102;
    if inf && (n == 3 || (n == 8 && lower(body[3]) == 105 && lower(body[4]) == 110 && lower(body[5]) == 105
        && lower(body[6]) == 116 && lower(body[7]) == 121)) {
        if negative {
            Some(Number::MinusInfinity)
        } else {
            Some(Number::PlusInfinity)
        }
    } else if n == 3 && lower(body[0]) == 110 && lower(body[1]) == 97 && lower(body[2]) == 110 {
        Some(Number::NotANumber)
    } else {
        match parse_decimal(text) {
            Some(v) => Some(Number::Finite(v as i128)),
            None => if !has_decimal_shape(text) {
                None
            } else if negative {
                Some(Number::MinusInfinity)
            } else {
                Some(Number::PlusInfinity)
            },
        }
    }
}

/// Appends the decimal digits of a number.
pub fn push_number(out: &mut Vec<u8>, n: u128)
    ensures
        final(out)@ == old(out)@ + nat_text(n as nat),
    decreases n,
{
    if n >= 10 {
        push_number(out, n / 10);
    }
    out.push(DIGIT_ZERO + (n % 10) as u8);
    proof {
        assert(out@ =~= old(out)@ + nat_text(n as nat));
    }
}

/// Appends the text of a number of thousandths.
pub fn push_decimal(out: &mut Vec<u8>, v: i128)
    ensures
        final(out)@ == old(out)@ + decimal_text(v as int),
{
    let mag: u128 = if v < 0 { ((-(v + 1)) as u128) + 1 } else { v as u128 };
    if v < 0 {
        out.push(MINUS);
    }
    push_number(out, mag / 1000);
    let r: u128 = mag % 1000;
    if r != 0 {
        out.push(POINT);
        out.push(DIGIT_ZERO + (r / 100) as u8);
        if r % 100 != 0 {
            out.push(DIGIT_ZERO + (r / 10 % 10) as u8);
            if r % 10 != 0 {
                out.push(DIGIT_ZERO + (r % 10) as u8);
            }
        }
    }
    proof {
        assert(out@ =~= old(out)@ + decimal_text(v as int));
    }
}

/// Appends the text of a number: `inf`, `-inf`, `NaN`, or the text of the
/// finite number.
pub fn push_number_text(out: &mut Vec<u8>, n: Number)
    ensures
        final(out)@ == old(out)@ + number_text(n@),
{
    match n {
        Number::Finite(x) => {
            push_decimal(out, x);
        },
        Number::PlusInfinity => {
            out.push(105);
            out.push(110);
            out.push(102);
        },
        Number::MinusInfinity => {
            out.push(MINUS);
            out.push(105);
            out.push(110);
            out.push(102);
        },
        Number::NotANumber => {
            out.push(78);
            out.push(97);
            out.push(78);
        },
    }
    proof {
        assert(out@ =~= old(out)@ + number_text(n@));
    }
}

/// The text of a number: `inf`, `-inf`, `NaN`, or the text of the finite
/// number.
pub fn render_number(n: Number) -> (out: Vec<u8>)
    ensures
        out@ == number_text(n@),
{
    let mut out: Vec<u8> = Vec::new();
    push_number_text(&mut out, n);
    proof {
        assert(Seq::<u8>::empty() + number_text(n@) =~= number_text(n@));
    }
    out
}

/// The text of a number of thousandths. The text of `i64::MIN` is beyond
/// `MAX_UNITS` in magnitude, so it is the one text written here that
/// `parse_decimal` does not read back.
pub fn render_decimal(v: i64) -> (out: Vec<u8>)
    ensures
        out@ == decimal_text(v as int),
{
    let mut out: Vec<u8> = Vec::new();
    push_decimal(&mut out, v as i128);
    proof {
        assert(Seq::<u8>::empty() + decimal_text(v as int) =~= decimal_text(v as int));
    }
    out
}

} // verus!
