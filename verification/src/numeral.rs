//! Readings as text: the numeral grammar, parsing and formatting.
//!
//! A numeral is an optional `-`, one or two digits, a `.` and one digit.  Its
//! value is the integer it denotes in tenths.

use crate::stats::rounded_mean;
use crate::stats::rounded_quotient;
use vstd::prelude::*;
use vstd::string::StringExecFns;
use vstd::string::StringSliceAdditionalSpecFns;

verus! {

/// The sign of a negative reading.
pub const MINUS: u8 = 45;

/// The decimal point.
pub const DOT: u8 = 46;

/// The digit zero.
pub const ZERO: u8 = 48;

/// The digit nine.
pub const NINE: u8 = 57;

/// `b` is an ASCII digit.
pub open spec fn is_digit(b: u8) -> bool {
    ZERO <= b <= NINE
}

/// The number that an ASCII digit stands for.
pub open spec fn digit_value(b: u8) -> int {
    b - ZERO
}

/// The ASCII digit of a number below ten.
pub open spec fn digit_byte(d: int) -> u8 {
    (ZERO + d) as u8
}

/// One or two digits, a dot and one digit.
pub open spec fn is_unsigned_numeral(s: Seq<u8>) -> bool {
    ||| s.len() == 3 && is_digit(s[0]) && s[1] == DOT && is_digit(s[2])
    ||| s.len() == 4 && is_digit(s[0]) && is_digit(s[1]) && s[2] == DOT && is_digit(s[3])
}

/// The text starts with a minus sign.
pub open spec fn has_sign(s: Seq<u8>) -> bool {
    s.len() > 0 && s[0] == MINUS
}

/// The text without its sign.
pub open spec fn unsigned_part(s: Seq<u8>) -> Seq<u8> {
    if has_sign(s) {
        s.subrange(1, s.len() as int)
    } else {
        s
    }
}

/// The grammar of a reading.
pub open spec fn is_numeral(s: Seq<u8>) -> bool {
    is_unsigned_numeral(unsigned_part(s))
}

/// The tenths that an unsigned numeral denotes.
pub open spec fn magnitude(s: Seq<u8>) -> int {
    if s.len() == 3 {
        10 * digit_value(s[0]) + digit_value(s[2])
    } else {
        100 * digit_value(s[0]) + 10 * digit_value(s[1]) + digit_value(s[3])
    }
}

/// The tenths that a numeral denotes.
pub open spec fn numeral_value(s: Seq<u8>) -> int {
    if has_sign(s) {
        -magnitude(unsigned_part(s))
    } else {
        magnitude(s)
    }
}

/// A numeral is canonical when its integer part has no leading zero and it
/// is not a negative zero.  These are the numerals that formatting produces.
pub open spec fn is_canonical(s: Seq<u8>) -> bool {
    let u = unsigned_part(s);
    &&& is_numeral(s)
    &&& u.len() == 4 ==> u[0] != ZERO
    &&& has_sign(s) ==> magnitude(u) != 0
}

/// The decimal digits of a natural number, most significant first.
pub open spec fn decimal(n: nat) -> Seq<u8>
    decreases n,
{
    if n < 10 {
        seq![digit_byte(n as int)]
    } else {
        decimal(n / 10).push(digit_byte((n % 10) as int))
    }
}

/// A number of tenths as text: the whole part, a dot, the tenths digit.
pub open spec fn magnitude_text(m: nat) -> Seq<u8> {
    decimal(m / 10) + seq![DOT, digit_byte((m % 10) as int)]
}

/// A reading as text, with a minus sign in front of a negative one.
pub open spec fn reading_text(v: int) -> Seq<u8> {
    if v < 0 {
        seq![MINUS] + magnitude_text((-v) as nat)
    } else {
        magnitude_text(v as nat)
    }
}

/// Bytes read as characters, one for one.
pub open spec fn chars_of(b: Seq<u8>) -> Seq<char> {
    Seq::new(b.len(), |i: int| b[i] as char)
}

/// Every reading that the grammar admits lies within a thousand tenths of
/// zero.
pub proof fn lemma_numeral_range(s: Seq<u8>)
    requires
        is_numeral(s),
    ensures
        -999 <= numeral_value(s) <= 999,
{
}

/// Formatting a reading in range gives a canonical numeral that denotes it.
pub proof fn lemma_parse_of_text(v: int)
    requires
        -999 <= v <= 999,
    ensures
        is_canonical(reading_text(v)),
        numeral_value(reading_text(v)) == v,
{
    let m: nat = if v < 0 { (-v) as nat } else { v as nat };
    let w: nat = m / 10;
    let t = magnitude_text(m);
    reveal_with_fuel(decimal, 3);
    if w < 10 {
        assert(decimal(w) =~= seq![digit_byte(w as int)]);
        assert(t =~= seq![digit_byte(w as int), DOT, digit_byte((m % 10) as int)]);
    } else {
        assert(w / 10 < 10);
        assert(decimal(w) =~= seq![digit_byte((w / 10) as int), digit_byte((w % 10) as int)]);
        assert(t =~= seq![
            digit_byte((w / 10) as int),
            digit_byte((w % 10) as int),
            DOT,
            digit_byte((m % 10) as int),
        ]);
    }
    assert(is_unsigned_numeral(t));
    assert(magnitude(t) == m);
    if v < 0 {
        let s = reading_text(v);
        assert(s[0] == MINUS);
        assert(unsigned_part(s) =~= t);
    } else {
        assert(!has_sign(t));
    }
}

/// Parsing a canonical numeral and formatting the reading gives the numeral
/// back.
pub proof fn lemma_text_of_parse(s: Seq<u8>)
    requires
        is_canonical(s),
    ensures
        reading_text(numeral_value(s)) == s,
{
    let u = unsigned_part(s);
    let m: nat = magnitude(u) as nat;
    let w: nat = m / 10;
    reveal_with_fuel(decimal, 3);
    if u.len() == 3 {
        assert(w == digit_value(u[0]));
        assert(m % 10 == digit_value(u[2]));
        assert(magnitude_text(m) =~= u);
    } else {
        assert(w == 10 * digit_value(u[0]) + digit_value(u[1]));
        assert(w / 10 == digit_value(u[0]));
        assert(w % 10 == digit_value(u[1]));
        assert(m % 10 == digit_value(u[3]));
        assert(decimal(w) =~= seq![u[0], u[1]]);
        assert(magnitude_text(m) =~= u);
    }
    assert(reading_text(numeral_value(s)) =~= s);
}

/// Round trip: whatever numeral a reading was parsed from, the text that
/// formatting gives for it is again a numeral, with the same sign and
/// magnitude.
pub proof fn lemma_round_trip(s: Seq<u8>)
    requires
        is_numeral(s),
    ensures
        is_numeral(reading_text(numeral_value(s))),
        numeral_value(reading_text(numeral_value(s))) == numeral_value(s),
{
    lemma_numeral_range(s);
    lemma_parse_of_text(numeral_value(s));
}

/// Tells whether `bytes` is a numeral.
pub fn is_valid_numeral(bytes: &[u8]) -> (ok: bool)
    ensures
        ok == is_numeral(bytes@),
{
    let len: usize = bytes.len();
    if len == 0 {
        return false;
    }
    let start: usize = if bytes[0] == MINUS { 1 } else { 0 };
    proof {
        let u = unsigned_part(bytes@);
        assert(u.len() == len - start);
        assert(forall|i: int| 0 <= i < u.len() ==> u[i] == bytes@[start + i]);
    }
    if len - start == 3 {
        is_digit_byte(bytes[start]) && bytes[start + 1] == DOT && is_digit_byte(bytes[start + 2])
    } else if len - start == 4 {
        is_digit_byte(bytes[start]) && is_digit_byte(bytes[start + 1]) && bytes[start + 2] == DOT
            && is_digit_byte(bytes[start + 3])
    } else {
        false
    }
}

/// Tells whether `b` is an ASCII digit.
pub fn is_digit_byte(b: u8) -> (ok: bool)
    ensures
        ok == is_digit(b),
{
    ZERO <= b && b <= NINE
}

/// Reads a numeral by its shape: the length and the sign fix where each
/// digit stands.
pub fn parse_temperature(bytes: &[u8]) -> (value: i32)
    requires
        is_numeral(bytes@),
    ensures
        value == numeral_value(bytes@),
{
    let len: usize = bytes.len();
    proof {
        let u = unsigned_part(bytes@);
        assert(has_sign(bytes@) ==> forall|i: int| 0 <= i < u.len() ==> u[i] == bytes@[1 + i]);
    }
    if len == 3 {
        let d1: i32 = (bytes[0] - ZERO) as i32;
        let d2: i32 = (bytes[2] - ZERO) as i32;
        d1 * 10 + d2
    } else if len == 4 {
        if bytes[0] == MINUS {
            let d1: i32 = (bytes[1] - ZERO) as i32;
            let d2: i32 = (bytes[3] - ZERO) as i32;
            -(d1 * 10 + d2)
        } else {
            let d1: i32 = (bytes[0] - ZERO) as i32;
            let d2: i32 = (bytes[1] - ZERO) as i32;
            let d3: i32 = (bytes[3] - ZERO) as i32;
            d1 * 100 + d2 * 10 + d3
        }
    } else {
        let d1: i32 = (bytes[1] - ZERO) as i32;
        let d2: i32 = (bytes[2] - ZERO) as i32;
        let d3: i32 = (bytes[4] - ZERO) as i32;
        -(d1 * 100 + d2 * 10 + d3)
    }
}

/// Reads a numeral in one scan from the left: the sign, the digits up to the
/// dot, then the digit behind it.
pub fn parse_temp(raw: &[u8]) -> (value: i32)
    requires
        is_numeral(raw@),
    ensures
        value == numeral_value(raw@),
{
    let mut idx: usize = 0;
    let mut negative = false;
    if raw[0] == MINUS {
        negative = true;
        idx = 1;
    }
    let ghost start: int = idx as int;
    let ghost dot: int = raw.len() - 2;
    proof {
        let u = unsigned_part(raw@);
        assert(forall|i: int| 0 <= i < u.len() ==> u[i] == raw@[start + i]);
    }
    let mut int_part: i32 = 0;
    while idx < raw.len() && raw[idx] != DOT
        invariant
            start <= idx <= dot,
            dot == raw.len() - 2,
            1 <= dot - start <= 2,
            raw@[dot] == DOT,
            forall|j: int| start <= j < dot ==> is_digit(#[trigger] raw@[j]),
            int_part == (if idx == start {
                0
            } else if idx == start + 1 {
                digit_value(raw@[start])
            } else {
                10 * digit_value(raw@[start]) + digit_value(raw@[start + 1])
            }),
        decreases raw.len() - idx,
    {
        int_part = int_part * 10 + (raw[idx] - ZERO) as i32;
        idx += 1;
    }
    idx += 1;
    let frac: i32 = (raw[idx] - ZERO) as i32;
    let mut value: i32 = int_part * 10 + frac;
    if negative {
        value = -value;
    }
    value
}

/// The text of one digit.
fn digit_str(d: u8) -> (s: &'static str)
    requires
        d < 10,
    ensures
        s@ == chars_of(seq![digit_byte(d as int)]),
{
    proof {
        reveal_strlit("0");
        reveal_strlit("1");
        reveal_strlit("2");
        reveal_strlit("3");
        reveal_strlit("4");
        reveal_strlit("5");
        reveal_strlit("6");
        reveal_strlit("7");
        reveal_strlit("8");
        reveal_strlit("9");
    }
    let s: &'static str = if d == 0 {
        "0"
    } else if d == 1 {
        "1"
    } else if d == 2 {
        "2"
    } else if d == 3 {
        "3"
    } else if d == 4 {
        "4"
    } else if d == 5 {
        "5"
    } else if d == 6 {
        "6"
    } else if d == 7 {
        "7"
    } else if d == 8 {
        "8"
    } else {
        "9"
    };
    assert(s@ =~= chars_of(seq![digit_byte(d as int)]));
    s
}

/// Reading bytes as characters goes through concatenation.
pub proof fn lemma_chars_of_concat(a: Seq<u8>, b: Seq<u8>)
    ensures
        chars_of(a + b) == chars_of(a) + chars_of(b),
{
    assert(chars_of(a + b) =~= chars_of(a) + chars_of(b));
}

/// Appends the decimal digits of `n`.
fn append_decimal(out: &mut String, n: u64)
    ensures
        final(out)@ == old(out)@ + chars_of(decimal(n as nat)),
    decreases n,
{
    if n >= 10 {
        append_decimal(out, n / 10);
    }
    out.append(digit_str((n % 10) as u8));
    proof {
        let last = seq![digit_byte((n % 10) as int)];
        if n >= 10 {
            assert(decimal(n as nat) =~= decimal((n / 10) as nat) + last);
            lemma_chars_of_concat(decimal((n / 10) as nat), last);
        } else {
            assert(decimal(n as nat) =~= last);
        }
        assert(out@ =~= old(out)@ + chars_of(decimal(n as nat)));
    }
}

/// Appends a number of tenths: the whole part, a dot and the tenths digit.
fn append_magnitude(out: &mut String, m: u64)
    ensures
        final(out)@ == old(out)@ + chars_of(magnitude_text(m as nat)),
{
    append_decimal(out, m / 10);
    proof {
        reveal_strlit(".");
    }
    out.append(".");
    out.append(digit_str((m % 10) as u8));
    proof {
        assert(out@ =~= old(out)@ + chars_of(magnitude_text(m as nat)));
    }
}

/// The text of a reading given by its sign and the magnitude of its tenths.
pub(crate) fn format_signed(negative: bool, m: u64) -> (s: String)
    requires
        negative ==> m > 0,
    ensures
        s@ == chars_of(reading_text(if negative { -(m as int) } else { m as int })),
{
    let mut s = String::new();
    if negative {
        proof {
            reveal_strlit("-");
        }
        s.append("-");
        assert(s@ =~= chars_of(seq![MINUS]));
    }
    append_magnitude(&mut s, m);
    proof {
        if negative {
            lemma_chars_of_concat(seq![MINUS], magnitude_text(m as nat));
        }
        assert(s@ =~= chars_of(reading_text(if negative { -(m as int) } else { m as int })));
    }
    s
}

/// The text of a reading: the whole part, a dot and one fractional digit,
/// with a minus sign in front of a negative reading.
pub fn format_temp(value: i32) -> (s: String)
    ensures
        s@ == chars_of(reading_text(value as int)),
{
    if value < 0 {
        format_signed(true, (-(value as i64)) as u64)
    } else {
        format_signed(false, value as u64)
    }
}

/// The text of the mean of a total over a count, rounded to the nearest
/// tenth, halves away from zero.
pub fn format_mean(sum_tenths: i64, count: u32) -> (s: String)
    requires
        count > 0,
    ensures
        s@ == chars_of(reading_text(rounded_mean(sum_tenths as int, count as int))),
{
    let negative: bool = sum_tenths < 0;
    let magnitude: u64 = if !negative {
        sum_tenths as u64
    } else if sum_tenths == i64::MIN {
        0x8000_0000_0000_0000
    } else {
        (-sum_tenths) as u64
    };
    let rounded: u64 = rounded_quotient(magnitude, count);
    format_signed(negative && rounded > 0, rounded)
}

/// The decimal digits of a number are ASCII digits.
pub proof fn lemma_decimal_digits(n: nat)
    ensures
        decimal(n).len() >= 1,
        forall|i: int| 0 <= i < decimal(n).len() ==> is_digit(#[trigger] decimal(n)[i]),
    decreases n,
{
    if n >= 10 {
        lemma_decimal_digits(n / 10);
    }
}

/// The text of a reading is ASCII.
pub proof fn lemma_reading_text_ascii(v: int)
    ensures
        forall|i: int| 0 <= i < reading_text(v).len() ==> #[trigger] reading_text(v)[i] < 128,
{
    let m: nat = if v < 0 { (-v) as nat } else { v as nat };
    lemma_decimal_digits(m / 10);
}

/// Appends the text of a reading to a byte buffer.
pub fn push_reading(out: &mut Vec<u8>, value: i32)
    ensures
        final(out)@ == old(out)@ + reading_text(value as int),
{
    let text: String = format_temp(value);
    let slice: &str = text.as_str();
    proof {
        broadcast use vstd::string::group_string_axioms;

        lemma_reading_text_ascii(value as int);
        assert(vstd::string::is_ascii(slice));
        assert(slice.spec_bytes() =~= reading_text(value as int));
    }
    out.extend_from_slice(slice.as_bytes());
}

/// The text of a number of tenths, as `format_temp` gives it.
pub fn format_tenths(value: i32) -> (s: String)
    ensures
        s@ == chars_of(reading_text(value as int)),
{
    format_temp(value)
}

} // verus!
