//! Numbers in header text: which strings `str::parse` accepts, and the
//! decimal form of integers.
use vstd::prelude::*;
use crate::text::{
    ascii_lower_text, char_from_ascii, copy_range, digit_char, digit_value, eq_ignore_case,
    eq_ignore_case_chars, is_digit,
};

verus! {

// ---------------------------------------------------------------------------
// Floating-point literals (`<f64 as FromStr>::from_str` accepts exactly these)
//
//   Float  ::= Sign? ( 'inf' | 'infinity' | 'nan' | Number )
//   Number ::= ( Digit+ | Digit+ '.' Digit* | Digit* '.' Digit+ ) Exp?
//   Exp    ::= 'e' Sign? Digit+
//   Sign   ::= [+-]
// where letters match in either case.
// ---------------------------------------------------------------------------

pub open spec fn is_sign(c: char) -> bool {
    c == '+' || c == '-'
}

pub open spec fn is_exp_mark(c: char) -> bool {
    c == 'e' || c == 'E'
}

/// One step of the recognizer of `Number`. States: 0 nothing read,
/// 2 integer digits, 3 digits then '.', 4 a '.' with no digit before,
/// 5 fraction digits, 6 exponent mark, 7 exponent sign, 8 exponent digits,
/// 9 rejected.
pub open spec fn number_step(st: u8, c: char) -> u8 {
    if st == 0 {
        if is_digit(c) { 2 } else if c == '.' { 4 } else { 9 }
    } else if st == 2 {
        if is_digit(c) { 2 } else if c == '.' { 3 } else if is_exp_mark(c) { 6 } else { 9 }
    } else if st == 3 || st == 5 {
        if is_digit(c) { 5 } else if is_exp_mark(c) { 6 } else { 9 }
    } else if st == 4 {
        if is_digit(c) { 5 } else { 9 }
    } else if st == 6 {
        if is_digit(c) { 8 } else if is_sign(c) { 7 } else { 9 }
    } else if st == 7 || st == 8 {
        if is_digit(c) { 8 } else { 9 }
    } else {
        9
    }
}

pub open spec fn number_run(st: u8, s: Seq<char>) -> u8
    decreases s.len(),
{
    if s.len() == 0 {
        st
    } else {
        number_run(number_step(st, s[0]), s.drop_first())
    }
}

pub open spec fn number_accepts(st: u8) -> bool {
    st == 2 || st == 3 || st == 5 || st == 8
}

pub open spec fn unsigned_part(s: Seq<char>) -> Seq<char> {
    if s.len() > 0 && is_sign(s[0]) {
        s.drop_first()
    } else {
        s
    }
}

pub open spec fn word_inf() -> Seq<char> {
    seq!['i', 'n', 'f']
}

pub open spec fn word_infinity() -> Seq<char> {
    seq!['i', 'n', 'f', 'i', 'n', 'i', 't', 'y']
}

pub open spec fn word_nan() -> Seq<char> {
    seq!['n', 'a', 'n']
}

pub open spec fn float_word(t: Seq<char>) -> bool {
    let l = ascii_lower_text(t);
    l == word_inf() || l == word_infinity() || l == word_nan()
}

/// `s.parse::<f64>().is_ok()`.
pub open spec fn float_literal(s: Seq<char>) -> bool {
    let t = unsigned_part(s);
    float_word(t) || number_accepts(number_run(0, t))
}

fn step_number(st: u8, c: char) -> (r: u8)
    ensures
        r == number_step(st, c),
{
    let digit = '0' <= c && c <= '9';
    if st == 0 {
        if digit { 2 } else if c == '.' { 4 } else { 9 }
    } else if st == 2 {
        if digit { 2 } else if c == '.' { 3 } else if c == 'e' || c == 'E' { 6 } else { 9 }
    } else if st == 3 || st == 5 {
        if digit { 5 } else if c == 'e' || c == 'E' { 6 } else { 9 }
    } else if st == 4 {
        if digit { 5 } else { 9 }
    } else if st == 6 {
        if digit { 8 } else if c == '+' || c == '-' { 7 } else { 9 }
    } else if st == 7 || st == 8 {
        if digit { 8 } else { 9 }
    } else {
        9
    }
}

fn words_of_float() -> (r: (Vec<char>, Vec<char>, Vec<char>))
    ensures
        r.0@ == word_inf(),
        r.1@ == word_infinity(),
        r.2@ == word_nan(),
{
    let a = vec!['i', 'n', 'f'];
    let b = vec!['i', 'n', 'f', 'i', 'n', 'i', 't', 'y'];
    let c = vec!['n', 'a', 'n'];
    assert(a@ =~= word_inf());
    assert(b@ =~= word_infinity());
    assert(c@ =~= word_nan());
    (a, b, c)
}

/// Whether `s.parse::<f64>()` succeeds.
pub fn is_float_literal(s: &[char]) -> (r: bool)
    ensures
        r == float_literal(s@),
{
    let start: usize = if s.len() > 0 && (s[0] == '+' || s[0] == '-') {
        1
    } else {
        0
    };
    let t = copy_range(s, start, s.len());
    assert(t@ =~= unsigned_part(s@));
    let (inf, infinity, nan) = words_of_float();
    if eq_ignore_case_chars(t.as_slice(), inf.as_slice()) || eq_ignore_case_chars(
        t.as_slice(),
        infinity.as_slice(),
    ) || eq_ignore_case_chars(t.as_slice(), nan.as_slice()) {
        proof {
            lemma_lower_word(t@);
        }
        return true;
    }
    proof {
        lemma_lower_word(t@);
    }
    let mut st: u8 = 0;
    let mut i: usize = 0;
    assert(t@.skip(0) =~= t@);
    while i < t.len()
        invariant
            0 <= i <= t.len(),
            number_run(0, t@) == number_run(st, t@.skip(i as int)),
        decreases t.len() - i,
    {
        assert(t@.skip(i as int).drop_first() =~= t@.skip(i + 1));
        st = step_number(st, t[i]);
        i = i + 1;
    }
    st == 2 || st == 3 || st == 5 || st == 8
}

proof fn lemma_lower_word(t: Seq<char>)
    ensures
        eq_ignore_case(t, word_inf()) == (ascii_lower_text(t) == word_inf()),
        eq_ignore_case(t, word_infinity()) == (ascii_lower_text(t) == word_infinity()),
        eq_ignore_case(t, word_nan()) == (ascii_lower_text(t) == word_nan()),
{
    assert(ascii_lower_text(word_inf()) =~= word_inf());
    assert(ascii_lower_text(word_infinity()) =~= word_infinity());
    assert(ascii_lower_text(word_nan()) =~= word_nan());
}

// ---------------------------------------------------------------------------
// Integers (`<usize / i32 / i64 as FromStr>::from_str`)
// ---------------------------------------------------------------------------

pub open spec fn all_digits(s: Seq<char>) -> bool {
    s.len() > 0 && forall|i: int| 0 <= i < s.len() ==> is_digit(#[trigger] s[i])
}

/// The value of a string of decimal digits.
pub open spec fn digits_value(s: Seq<char>) -> nat
    decreases s.len(),
{
    if s.len() == 0 {
        0
    } else {
        digits_value(s.drop_last()) * 10 + digit_value(s.last())
    }
}

/// What an unsigned `parse` with largest value `max` gives: an optional '+'
/// and then decimal digits, whose value must fit.
pub open spec fn parse_unsigned(s: Seq<char>, max: nat) -> Option<nat> {
    let t = if s.len() > 0 && s[0] == '+' {
        s.drop_first()
    } else {
        s
    };
    if all_digits(t) && digits_value(t) <= max {
        Some(digits_value(t))
    } else {
        None
    }
}

/// What a signed `parse` with largest value `max` gives (the smallest is
/// `-max - 1`).
pub open spec fn parse_signed(s: Seq<char>, max: nat) -> Option<int> {
    if s.len() > 0 && s[0] == '-' {
        let t = s.drop_first();
        if all_digits(t) && digits_value(t) <= max + 1 {
            Some(-(digits_value(t) as int))
        } else {
            None
        }
    } else {
        match parse_unsigned(s, max) {
            Some(v) => Some(v as int),
            None => None,
        }
    }
}

proof fn lemma_digits_grow(s: Seq<char>, i: int, j: int)
    requires
        0 <= i <= j <= s.len(),
    ensures
        digits_value(s.take(i)) <= digits_value(s.take(j)),
    decreases j - i,
{
    if i < j {
        lemma_digits_grow(s, i, j - 1);
        assert(s.take(j).drop_last() =~= s.take(j - 1));
    }
}

/// The value of the digits `s[lo..hi]` when they are all digits, at least
/// one, and the value is at most `max`.
fn digits_upto(s: &[char], lo: usize, hi: usize, max: u64) -> (r: Option<u64>)
    requires
        lo <= hi <= s.len(),
    ensures
        match r {
            Some(v) => all_digits(s@.subrange(lo as int, hi as int)) && v == digits_value(
                s@.subrange(lo as int, hi as int),
            ) && v <= max,
            None => !(all_digits(s@.subrange(lo as int, hi as int)) && digits_value(
                s@.subrange(lo as int, hi as int),
            ) <= max),
        },
{
    if lo == hi {
        return None;
    }
    let ghost t = s@.subrange(lo as int, hi as int);
    let mut v: u64 = 0;
    let mut i: usize = lo;
    assert(t.take(0) =~= Seq::<char>::empty());
    while i < hi
        invariant
            lo <= i <= hi <= s.len(),
            t == s@.subrange(lo as int, hi as int),
            forall|j: int| 0 <= j < i - lo ==> is_digit(#[trigger] t[j]),
            v == digits_value(t.take(i - lo)),
            v <= max,
        decreases hi - i,
    {
        let c = s[i];
        if !('0' <= c && c <= '9') {
            assert(!is_digit(t[i - lo]));
            return None;
        }
        let d: u32 = (c as u32) - ('0' as u32);
        let nv: u128 = (v as u128) * 10 + (d as u128);
        assert(t.take(i - lo + 1).drop_last() =~= t.take(i - lo));
        if nv > max as u128 {
            proof {
                lemma_digits_grow(t, i - lo + 1, t.len() as int);
                assert(t.take(t.len() as int) =~= t);
            }
            return None;
        }
        v = nv as u64;
        i = i + 1;
    }
    assert(t.take(t.len() as int) =~= t);
    Some(v)
}

/// `s.parse::<usize>()`.
pub fn parse_usize_text(s: &[char]) -> (r: Option<usize>)
    ensures
        match r {
            Some(v) => parse_unsigned(s@, usize::MAX as nat) == Some(v as nat),
            None => parse_unsigned(s@, usize::MAX as nat) is None,
        },
{
    let start: usize = if s.len() > 0 && s[0] == '+' {
        1
    } else {
        0
    };
    assert(s@.subrange(start as int, s.len() as int) =~= (if s@.len() > 0 && s@[0] == '+' {
        s@.drop_first()
    } else {
        s@
    }));
    match digits_upto(s, start, s.len(), usize::MAX as u64) {
        Some(v) => Some(v as usize),
        None => None,
    }
}

/// `s.parse::<i64>()`.
pub fn parse_i64_text(s: &[char]) -> (r: Option<i64>)
    ensures
        match r {
            Some(v) => parse_signed(s@, i64::MAX as nat) == Some(v as int),
            None => parse_signed(s@, i64::MAX as nat) is None,
        },
{
    if s.len() > 0 && s[0] == '-' {
        assert(s@.subrange(1, s.len() as int) =~= s@.drop_first());
        match digits_upto(s, 1, s.len(), 9223372036854775808u64) {
            Some(v) => {
                if v == 9223372036854775808u64 {
                    Some(i64::MIN)
                } else {
                    Some(-(v as i64))
                }
            },
            None => None,
        }
    } else {
        let start: usize = if s.len() > 0 && s[0] == '+' {
            1
        } else {
            0
        };
        assert(s@.subrange(start as int, s.len() as int) =~= (if s@.len() > 0 && s@[0] == '+' {
            s@.drop_first()
        } else {
            s@
        }));
        match digits_upto(s, start, s.len(), i64::MAX as u64) {
            Some(v) => Some(v as i64),
            None => None,
        }
    }
}

/// `s.parse::<i32>()`.
pub fn parse_i32_text(s: &[char]) -> (r: Option<i32>)
    ensures
        match r {
            Some(v) => parse_signed(s@, i32::MAX as nat) == Some(v as int),
            None => parse_signed(s@, i32::MAX as nat) is None,
        },
{
    if s.len() > 0 && s[0] == '-' {
        assert(s@.subrange(1, s.len() as int) =~= s@.drop_first());
        match digits_upto(s, 1, s.len(), 2147483648u64) {
            Some(v) => {
                if v == 2147483648u64 {
                    Some(i32::MIN)
                } else {
                    Some(-(v as i32))
                }
            },
            None => None,
        }
    } else {
        let start: usize = if s.len() > 0 && s[0] == '+' {
            1
        } else {
            0
        };
        assert(s@.subrange(start as int, s.len() as int) =~= (if s@.len() > 0 && s@[0] == '+' {
            s@.drop_first()
        } else {
            s@
        }));
        match digits_upto(s, start, s.len(), i32::MAX as u64) {
            Some(v) => Some(v as i32),
            None => None,
        }
    }
}

// ---------------------------------------------------------------------------
// Decimal form of integers (`format!("{}")`)
// ---------------------------------------------------------------------------

pub open spec fn decimal_text(n: nat) -> Seq<char>
    decreases n,
{
    if n < 10 {
        seq![digit_char(n)]
    } else {
        decimal_text(n / 10).push(digit_char(n % 10))
    }
}

pub open spec fn signed_decimal_text(v: int) -> Seq<char> {
    if v < 0 {
        seq!['-'] + decimal_text((-v) as nat)
    } else {
        decimal_text(v as nat)
    }
}

fn digit_of(d: u64) -> (c: char)
    requires
        d < 10,
    ensures
        c == digit_char(d as nat),
{
    let b: u8 = (d as u8) + 48;
    char_from_ascii(b)
}

/// Appends the decimal form of `n`.
pub fn push_decimal(out: &mut Vec<char>, n: u64)
    ensures
        final(out)@ == old(out)@ + decimal_text(n as nat),
    decreases n,
{
    if n < 10 {
        out.push(digit_of(n));
        assert(out@ =~= old(out)@ + decimal_text(n as nat));
    } else {
        push_decimal(out, n / 10);
        out.push(digit_of(n % 10));
        assert(out@ =~= old(out)@ + decimal_text(n as nat));
    }
}

/// Appends the decimal form of a signed value.
pub fn push_signed_decimal(out: &mut Vec<char>, v: i64)
    ensures
        final(out)@ == old(out)@ + signed_decimal_text(v as int),
{
    if v < 0 {
        out.push('-');
        let m: u64 = if v == i64::MIN {
            9223372036854775808u64
        } else {
            (-v) as u64
        };
        push_decimal(out, m);
        assert(out@ =~= old(out)@ + signed_decimal_text(v as int));
    } else {
        push_decimal(out, v as u64);
    }
}

/// A Fortran exponent letter written the way Rust reads it: 'D' as 'E' and
/// 'd' as 'e'; every other character stays.
pub open spec fn e_exponent_char(c: char) -> char {
    if c == 'D' {
        'E'
    } else if c == 'd' {
        'e'
    } else {
        c
    }
}

pub open spec fn e_exponent_text(s: Seq<char>) -> Seq<char> {
    Seq::new(s.len(), |i: int| e_exponent_char(s[i]))
}

/// A real-number text with Fortran 'D' exponents (`1.5D3`) rewritten with
/// 'E', as a header value is read a second time when it does not parse.
pub fn fortran_exponent_as_e(s: &str) -> (r: String)
    ensures
        r@ == e_exponent_text(s@),
{
    let v = crate::text::chars_of(s);
    let mut out: Vec<char> = Vec::new();
    let mut i: usize = 0;
    while i < v.len()
        invariant
            0 <= i <= v.len(),
            out@ == e_exponent_text(v@.take(i as int)),
        decreases v.len() - i,
    {
        let c = v[i];
        let m = if c == 'D' {
            'E'
        } else if c == 'd' {
            'e'
        } else {
            c
        };
        out.push(m);
        i = i + 1;
        assert(out@ =~= e_exponent_text(v@.take(i as int)));
    }
    assert(v@.take(v.len() as int) =~= v@);
    crate::text::string_of(out.as_slice())
}

} // verus!
