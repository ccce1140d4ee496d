//! Fixed-point money amounts in hundredths.

use vstd::prelude::*;
use crate::error::Error;
use crate::text::{
    all_digits, chars_of, digit_char, digits_value, first_index_of, int_text, is_digit,
    lemma_digits_prefix, lemma_first_index_of, lemma_first_index_of_absent, int_negative, lemma_nat_text, nat_text, int_body, parse_int_in, parse_int_range, parse_int_value, string_of,
};

verus! {

/// A money amount held as signed minor units (1 unit = 0.01).
#[derive(Clone, Copy, Debug, PartialEq, Eq, Structural, Default)]
pub struct Price(pub i32);

pub open spec fn in_i32(v: int) -> bool {
    i32::MIN <= v && v <= i32::MAX
}

/// Two's-complement wrap of `v` into the `i32` range.
pub open spec fn wrap_i32(v: int) -> int {
    let m = v % 0x1_0000_0000;
    if m > i32::MAX { m - 0x1_0000_0000 } else { m }
}

/// The value of the fractional text after the `.`.
pub open spec fn fraction_value(f: Seq<char>) -> Option<int> {
    if f.len() == 0 {
        Some(0)
    } else if f.len() == 1 {
        match parse_int_in(f, true, i32::MIN as int, i32::MAX as int) {
            Some(v) => Some(v * 10),
            None => None,
        }
    } else if f.len() == 2 {
        parse_int_in(f, true, i32::MIN as int, i32::MAX as int)
    } else {
        None
    }
}

/// The minor units that the literal `s` denotes, if it is a valid price.
///
/// The integer part is read as a signed integer; an absent or empty
/// fractional part counts as zero, one digit counts as tenths, two as
/// hundredths; a longer fractional part or a second `.` is rejected.
pub open spec fn price_value(s: Seq<char>) -> Option<int> {
    let d = first_index_of(s, '.');
    let ip = parse_int_in(s.subrange(0, d), true, i32::MIN as int, i32::MAX as int);
    if d == s.len() {
        match ip {
            Some(i) => if in_i32(i * 100) { Some(i * 100) } else { None },
            None => None,
        }
    } else {
        let rest = s.subrange(d + 1, s.len() as int);
        let d2 = first_index_of(rest, '.');
        match (ip, fraction_value(rest.subrange(0, d2))) {
            (Some(i), Some(f)) => if d2 == rest.len() && in_i32(i * 100 + f) {
                Some(i * 100 + f)
            } else {
                None
            },
            _ => None,
        }
    }
}

/// Whole units of `v`, truncated toward zero.
pub open spec fn integer_part_of(v: int) -> int {
    if v >= 0 { v / 100 } else { -((-v) / 100) }
}

/// Magnitude of the hundredths of `v`.
pub open spec fn fraction_part_of(v: int) -> int {
    if v >= 0 { v % 100 } else { (-v) % 100 }
}

/// Two-digit zero-padded rendering of `f < 100`.
pub open spec fn two_digits(f: nat) -> Seq<char> {
    seq![digit_char(f / 10), digit_char(f % 10)]
}

/// The display text of an amount: integer part, `.`, two fractional digits.
pub open spec fn price_text(v: int) -> Seq<char> {
    int_text(integer_part_of(v)) + seq!['.'] + two_digits(fraction_part_of(v) as nat)
}

/// A literal in canonical form: a natural number, `.`, two digits.
pub open spec fn canonical_literal(i: nat, f: nat) -> Seq<char> {
    nat_text(i) + seq!['.'] + two_digits(f)
}

/// Reading a canonical literal `i.ff` and displaying the amount gives the
/// literal back.
pub proof fn lemma_price_round_trip(i: nat, f: nat)
    requires
        f < 100,
        i * 100 + f <= i32::MAX,
    ensures
        price_value(canonical_literal(i, f)) == Some((i * 100 + f) as int),
        price_text((i * 100 + f) as int) == canonical_literal(i, f),
{
    let it = nat_text(i);
    let td = two_digits(f);
    let s = canonical_literal(i, f);
    lemma_nat_text(i);
    assert(s == it + (seq!['.'] + td));
    lemma_first_index_of_absent(it, seq!['.'] + td, '.');
    assert((seq!['.'] + td)[0] == '.');
    assert(first_index_of(s, '.') == it.len());
    assert(s.subrange(0, it.len() as int) == it);
    assert(int_body(it, true) == it);
    assert(parse_int_value(it, true) == Some(i as int));
    let rest = s.subrange(it.len() as int + 1, s.len() as int);
    assert(rest == td);
    assert(digit_char(f / 10) as int == f / 10 + 48);
    assert(digit_char(f % 10) as int == f % 10 + 48);
    assert(all_digits(td)) by {
        assert forall|j: int| 0 <= j < td.len() implies is_digit(#[trigger] td[j]) by {}
    }
    lemma_first_index_of(td, '.');
    assert(first_index_of(td, '.') == 2);
    assert(td.subrange(0, 2) == td);
    assert(td.drop_last() == seq![digit_char(f / 10)]);
    assert(seq![digit_char(f / 10)].drop_last().len() == 0);
    assert(digits_value(seq![digit_char(f / 10)].drop_last()) == 0);
    assert(digits_value(seq![digit_char(f / 10)]) == f / 10);
    assert(td.last() == digit_char(f % 10));
    assert(digits_value(td) == (f / 10) * 10 + f % 10);
    assert(int_body(td, true) == td);
    assert(fraction_value(td) == Some(f as int));
    assert(((i * 100 + f) as int) / 100 == i && ((i * 100 + f) as int) % 100 == f) by (nonlinear_arith)
        requires f < 100;
}

/// The text holds digits and dots, and at most a leading `+`.
pub open spec fn unsigned_literal(s: Seq<char>) -> bool {
    forall|j: int| 0 <= j < s.len() ==> is_digit(#[trigger] s[j]) || s[j] == '.' || (j == 0 && s[j] == '+')
}

proof fn lemma_parse_unsigned(s: Seq<char>)
    requires
        forall|j: int| 0 <= j < s.len() ==> is_digit(#[trigger] s[j]) || (j == 0 && s[j] == '+'),
    ensures
        parse_int_in(s, true, i32::MIN as int, i32::MAX as int) matches Some(v) ==> v >= 0,
{
    if parse_int_in(s, true, i32::MIN as int, i32::MAX as int) is Some {
        assert(!int_negative(s, true));
        lemma_digits_prefix(int_body(s, true), 0);
    }
}

/// A literal without a minus sign denotes a non-negative amount.
pub proof fn lemma_unsigned_literal_nonneg(s: Seq<char>)
    requires
        unsigned_literal(s),
    ensures
        price_value(s) matches Some(v) ==> v >= 0,
{
    lemma_first_index_of(s, '.');
    let d = first_index_of(s, '.');
    let ip = s.subrange(0, d);
    assert forall|j: int| 0 <= j < ip.len() implies is_digit(#[trigger] ip[j]) || (j == 0 && ip[j] == '+') by {
        assert(ip[j] == s[j]);
    }
    lemma_parse_unsigned(ip);
    if d < s.len() {
        let rest = s.subrange(d + 1, s.len() as int);
        lemma_first_index_of(rest, '.');
        let d2 = first_index_of(rest, '.');
        let f = rest.subrange(0, d2);
        assert forall|j: int| 0 <= j < f.len() implies is_digit(#[trigger] f[j]) || (j == 0 && f[j] == '+') by {
            assert(f[j] == s[d + 1 + j]);
            assert(rest[j] != '.');
        }
        lemma_parse_unsigned(f);
    }
}

impl Price {
    pub fn as_raw(&self) -> (r: i32)
        ensures
            r == self.0,
    {
        self.0
    }

    pub fn integer_part(&self) -> (r: i32)
        ensures
            r == integer_part_of(self.0 as int),
    {
        let v = self.0 as i64;
        if v >= 0 {
            (v / 100) as i32
        } else {
            (-((-v) / 100)) as i32
        }
    }

    pub fn fractional_part(&self) -> (r: i32)
        ensures
            r == fraction_part_of(self.0 as int),
            0 <= r < 100,
    {
        let v = self.0 as i64;
        if v >= 0 {
            (v % 100) as i32
        } else {
            ((-v) % 100) as i32
        }
    }

    pub fn new_unchecked(integer_part: i32, fractional_part: i32) -> (r: Price)
        requires
            in_i32(integer_part * 100 + fractional_part),
        ensures
            r.0 == integer_part * 100 + fractional_part,
    {
        Price((integer_part as i64 * 100 + fractional_part as i64) as i32)
    }

    /// Difference of two amounts, wrapping on `i32` overflow.
    pub fn sub(self, rhs: Price) -> (r: Price)
        ensures
            r.0 == wrap_i32(self.0 - rhs.0),
            in_i32(self.0 - rhs.0) ==> r.0 == self.0 - rhs.0,
    {
        Price(self.0.wrapping_sub(rhs.0))
    }

    /// Parses a price literal such as `20`, `6.2` or `20.00`.
    pub fn parse(s: &str) -> (r: Result<Price, Error>)
        ensures
            r is Ok <==> price_value(s@) is Some,
            r is Ok ==> r->Ok_0.0 == price_value(s@)->0,
    {
        let v = chars_of(s);
        let n = v.len();
        let mut d: usize = 0;
        while d < n && v[d] != '.'
            invariant
                d <= n,
                n == v@.len(),
                forall|j: int| 0 <= j < d ==> v@[j] != '.',
            decreases n - d,
        {
            d = d + 1;
        }
        proof {
            lemma_first_index_of(v@, '.');
            assert(first_index_of(v@, '.') == d);
        }
        let ip = parse_int_range(&v, 0, d, true, 0x8000_0000u64);
        let i: i64 = match ip {
            Some(i) => {
                if i > 0x7fff_ffff {
                    return Err(Error::new(None, "integer part out of range"));
                }
                i
            },
            None => {
                return Err(Error::new(None, "cannot parse the integer part"));
            },
        };
        if d == n {
            let total = i * 100;
            if total < -0x8000_0000 || total > 0x7fff_ffff {
                return Err(Error::new(None, "price out of range"));
            }
            return Ok(Price(total as i32));
        }
        let ghost rest = v@.subrange(d + 1, n as int);
        let mut d2: usize = d + 1;
        while d2 < n && v[d2] != '.'
            invariant
                d + 1 <= d2 <= n,
                n == v@.len(),
                rest == v@.subrange(d + 1, n as int),
                forall|j: int| d + 1 <= j < d2 ==> v@[j] != '.',
            decreases n - d2,
        {
            d2 = d2 + 1;
        }
        proof {
            lemma_first_index_of(rest, '.');
            assert forall|j: int| 0 <= j < d2 - d - 1 implies rest[j] != '.' by {
                assert(rest[j] == v@[j + d + 1]);
            }
            if d2 < n {
                assert(rest[d2 - d - 1] == '.');
            }
            assert(first_index_of(rest, '.') == d2 - d - 1);
            assert(rest.subrange(0, d2 - d - 1) == v@.subrange(d + 1, d2 as int));
        }
        let flen = d2 - (d + 1);
        let f: i64 = if flen == 0 {
            0
        } else if flen <= 2 {
            match parse_int_range(&v, d + 1, d2, true, 0x8000_0000u64) {
                Some(x) => {
                    if x > 0x7fff_ffff {
                        return Err(Error::new(None, "fractional part out of range"));
                    }
                    if flen == 1 { x * 10 } else { x }
                },
                None => {
                    return Err(Error::new(None, "cannot parse the fractional part"));
                },
            }
        } else {
            return Err(Error::new(None, "fractional part has more than two digits"));
        };
        if d2 < n {
            return Err(Error::new(None, "unexpected part after the fractional part"));
        }
        let total = i * 100 + f;
        if total < -0x8000_0000 || total > 0x7fff_ffff {
            return Err(Error::new(None, "price out of range"));
        }
        Ok(Price(total as i32))
    }

    /// The display text, such as `20.00`.
    pub fn render(&self) -> (r: String)
        ensures
            r@ == price_text(self.0 as int),
    {
        let ip = self.integer_part();
        let fp = self.fractional_part();
        let mut out: Vec<char> = Vec::new();
        if ip < 0 {
            out.push('-');
        }
        let mag: u32 = if ip < 0 { (-(ip as i64)) as u32 } else { ip as u32 };
        let digits = nat_chars(mag);
        out.append(&mut digits.clone());
        out.push('.');
        let fp32 = fp as u32;
        out.push(digit_of(fp32 / 10));
        out.push(digit_of(fp32 % 10));
        proof {
            let t = two_digits(fraction_part_of(self.0 as int) as nat);
            assert(out@ == int_text(integer_part_of(self.0 as int)) + seq!['.'] + t);
        }
        string_of(out.as_slice())
    }
}

/// The digit character of `d < 10`.
pub fn digit_of(d: u32) -> (r: char)
    requires
        d < 10,
    ensures
        r == digit_char(d as nat),
{
    let c = ('0' as u8 + d as u8) as char;
    c
}

/// The decimal digits of `n`.
pub fn nat_chars(n: u32) -> (r: Vec<char>)
    ensures
        r@ == nat_text(n as nat),
    decreases n,
{
    if n < 10 {
        let mut r: Vec<char> = Vec::new();
        r.push(digit_of(n));
        r
    } else {
        let mut r = nat_chars(n / 10);
        r.push(digit_of(n % 10));
        r
    }
}

} // verus!
