//! Character-level helpers shared by the parsers and renderers.

use vstd::prelude::*;
use vstd::string::*;

verus! {

/// Whether `c` is an ASCII decimal digit.
pub open spec fn is_digit(c: char) -> bool {
    '0' <= c && c <= '9'
}

/// Whether every character of `s` is a decimal digit.
pub open spec fn all_digits(s: Seq<char>) -> bool {
    forall|i: int| 0 <= i < s.len() ==> is_digit(#[trigger] s[i])
}

/// The numeric value of a run of decimal digits.
pub open spec fn digits_value(s: Seq<char>) -> int
    decreases s.len(),
{
    if s.len() == 0 {
        0
    } else {
        digits_value(s.drop_last()) * 10 + (s.last() as int - '0' as int)
    }
}

/// The digit character for `d < 10`.
pub open spec fn digit_char(d: nat) -> char {
    (d + '0' as nat) as char
}

/// The shortest decimal rendering of a natural number.
pub open spec fn nat_text(n: nat) -> Seq<char>
    decreases n,
{
    if n < 10 {
        seq![digit_char(n)]
    } else {
        nat_text(n / 10).push(digit_char(n % 10))
    }
}

/// Decimal rendering of an integer, with a leading `-` when negative.
pub open spec fn int_text(i: int) -> Seq<char> {
    if i < 0 {
        seq!['-'] + nat_text((-i) as nat)
    } else {
        nat_text(i as nat)
    }
}

/// Whether `s` starts with a minus sign that counts.
pub open spec fn int_negative(s: Seq<char>, signed: bool) -> bool {
    signed && s.len() > 0 && s[0] == '-'
}

/// The digits of `s` after an optional sign.
pub open spec fn int_body(s: Seq<char>, signed: bool) -> Seq<char> {
    if s.len() > 0 && (s[0] == '+' || int_negative(s, signed)) { s.drop_first() } else { s }
}

/// What the standard library's integer parsing yields for `s`: an optional
/// sign (`+`, or `-` where `signed`), then at least one digit.
pub open spec fn parse_int_value(s: Seq<char>, signed: bool) -> Option<int> {
    let body = int_body(s, signed);
    if body.len() == 0 || !all_digits(body) {
        None
    } else if int_negative(s, signed) {
        Some(-digits_value(body))
    } else {
        Some(digits_value(body))
    }
}

/// `parse_int_value` restricted to the range `lo..=hi` of the target type.
pub open spec fn parse_int_in(s: Seq<char>, signed: bool, lo: int, hi: int) -> Option<int> {
    match parse_int_value(s, signed) {
        Some(v) => if lo <= v && v <= hi { Some(v) } else { None },
        None => None,
    }
}

/// Index of the first `c` in `s`, or `s.len()` if there is none.
pub open spec fn first_index_of(s: Seq<char>, c: char) -> int
    decreases s.len(),
{
    if s.len() == 0 {
        0
    } else if s[0] == c {
        0
    } else {
        1 + first_index_of(s.drop_first(), c)
    }
}

pub proof fn lemma_first_index_of(s: Seq<char>, c: char)
    ensures
        0 <= first_index_of(s, c) <= s.len(),
        first_index_of(s, c) < s.len() ==> s[first_index_of(s, c)] == c,
        forall|i: int| 0 <= i < first_index_of(s, c) ==> s[i] != c,
    decreases s.len(),
{
    if s.len() > 0 && s[0] != c {
        lemma_first_index_of(s.drop_first(), c);
        assert forall|i: int| 0 <= i < first_index_of(s, c) implies s[i] != c by {
            if i > 0 {
                assert(s[i] == s.drop_first()[i - 1]);
            }
        }
    }
}

pub proof fn lemma_first_index_of_absent(s: Seq<char>, t: Seq<char>, c: char)
    requires
        forall|i: int| 0 <= i < s.len() ==> s[i] != c,
    ensures
        first_index_of(s + t, c) == s.len() + first_index_of(t, c),
    decreases s.len(),
{
    if s.len() > 0 {
        assert((s + t).drop_first() == s.drop_first() + t);
        lemma_first_index_of_absent(s.drop_first(), t, c);
    } else {
        assert(s + t == t);
    }
}

pub proof fn lemma_digits_prefix(s: Seq<char>, k: int)
    requires
        all_digits(s),
        0 <= k <= s.len(),
    ensures
        digits_value(s) >= digits_value(s.subrange(0, k)),
        digits_value(s) >= 0,
    decreases s.len(),
{
    if s.len() > 0 {
        let d = s.drop_last();
        assert(all_digits(d)) by {
            assert forall|i: int| 0 <= i < d.len() implies is_digit(#[trigger] d[i]) by {
                assert(d[i] == s[i]);
            }
        }
        if k == s.len() {
            assert(s.subrange(0, k) == s);
            lemma_digits_prefix(d, 0);
        } else {
            assert(d.subrange(0, k) == s.subrange(0, k));
            lemma_digits_prefix(d, k);
        }
        assert(is_digit(s[s.len() - 1]));
    } else {
        assert(s.subrange(0, k) == s);
    }
}

pub proof fn lemma_nat_text(n: nat)
    ensures
        all_digits(nat_text(n)),
        digits_value(nat_text(n)) == n,
        nat_text(n).len() >= 1,
        forall|i: int| 0 <= i < nat_text(n).len() ==> nat_text(n)[i] != '.' && nat_text(n)[i] != '-'
            && nat_text(n)[i] != '+',
    decreases n,
{
    if n >= 10 {
        lemma_nat_text(n / 10);
        let t = nat_text(n);
        assert(t.drop_last() == nat_text(n / 10));
        assert(t.last() == digit_char(n % 10));
        assert(digit_char(n % 10) as int == (n % 10) + 48);
        assert((n / 10) * 10 + n % 10 == n);
        assert forall|i: int| 0 <= i < t.len() implies is_digit(#[trigger] t[i]) by {
            if i < t.len() - 1 {
                assert(t[i] == nat_text(n / 10)[i]);
            }
        }
    } else {
        assert(nat_text(n).drop_last().len() == 0);
        assert(digit_char(n) as int == n + 48);
        assert(digits_value(nat_text(n).drop_last()) == 0);
    }
}

/// The characters of `s`.
pub fn chars_of(s: &str) -> (r: Vec<char>)
    ensures
        r@ == s@,
{
    let n = s.unicode_len();
    let mut r: Vec<char> = Vec::new();
    let mut i: usize = 0;
    while i < n
        invariant
            n == s@.len(),
            i <= n,
            r@ == s@.subrange(0, i as int),
        decreases n - i,
    {
        r.push(s.get_char(i));
        i = i + 1;
    }
    assert(r@ == s@);
    r
}

/// Relies on `FromIterator<&char> for String` (through `Iterator::collect`):
/// the string holds exactly the given characters, in order.
#[verifier::external_body]
pub(crate) fn string_of(v: &[char]) -> (r: String)
    ensures
        r@ == v@,
{
    v.iter().collect()
}

/// The characters `v[lo..hi]` as a string.
pub fn string_of_range(v: &Vec<char>, lo: usize, hi: usize) -> (r: String)
    requires
        lo <= hi <= v@.len(),
    ensures
        r@ == v@.subrange(lo as int, hi as int),
{
    let mut part: Vec<char> = Vec::new();
    let mut i: usize = lo;
    while i < hi
        invariant
            lo <= i <= hi,
            hi <= v@.len(),
            part@ == v@.subrange(lo as int, i as int),
        decreases hi - i,
    {
        part.push(v[i]);
        i = i + 1;
    }
    string_of(part.as_slice())
}

/// Parses the decimal integer held in `v[lo..hi]`, as the standard library
/// does for a type with range `lo_bound..=hi_bound`.
pub fn parse_int_range(v: &Vec<char>, lo: usize, hi: usize, signed: bool, max_abs: u64) -> (r: Option<i64>)
    requires
        lo <= hi <= v@.len(),
        max_abs <= 0x1_0000_0000u64,
    ensures
        r == (match parse_int_value(v@.subrange(lo as int, hi as int), signed) {
            Some(x) => if -(max_abs as int) <= x <= max_abs { Some(x as i64) } else { None },
            None => None,
        }),
        !signed ==> (r matches Some(x) ==> x >= 0),
{
    let ghost s = v@.subrange(lo as int, hi as int);
    let mut start: usize = lo;
    let mut neg = false;
    if lo < hi && (v[lo] == '+' || (signed && v[lo] == '-')) {
        neg = signed && v[lo] == '-';
        start = lo + 1;
    }
    let ghost body = v@.subrange(start as int, hi as int);
    assert(body == int_body(s, signed));
    assert(neg == int_negative(s, signed));
    if start == hi {
        return None;
    }
    let mut acc: u64 = 0;
    let mut i: usize = start;
    while i < hi
        invariant
            start <= i <= hi,
            hi <= v@.len(),
            body == v@.subrange(start as int, hi as int),
            body == int_body(s, signed),
            neg == int_negative(s, signed),
            s == v@.subrange(lo as int, hi as int),
            all_digits(v@.subrange(start as int, i as int)),
            acc as int == digits_value(v@.subrange(start as int, i as int)),
            acc <= max_abs,
            max_abs <= 0x1_0000_0000u64,
        decreases hi - i,
    {
        let c = v[i];
        if !('0' <= c && c <= '9') {
            assert(body[i - start] == c);
            assert(!is_digit(body[i - start]));
            assert(!all_digits(body));
            assert(parse_int_value(s, signed) is None);
            return None;
        }
        let d = (c as u32 - '0' as u32) as u64;
        assert(v@.subrange(start as int, i + 1).drop_last() == v@.subrange(start as int, i as int));
        assert(all_digits(v@.subrange(start as int, i + 1))) by {
            let p = v@.subrange(start as int, i + 1);
            assert forall|j: int| 0 <= j < p.len() implies is_digit(#[trigger] p[j]) by {
                if j < p.len() - 1 {
                    assert(p[j] == v@.subrange(start as int, i as int)[j]);
                }
            }
        }
        let ghost p = v@.subrange(start as int, i + 1);
        assert(p.last() == c);
        assert(digits_value(p) == acc * 10 + d);
        let next = acc * 10 + d;
        if next > max_abs {
            proof {
                if all_digits(body) {
                    lemma_digits_prefix(body, i + 1 - start);
                    assert(body.subrange(0, i + 1 - start) == v@.subrange(start as int, i + 1));
                    assert(digits_value(body) > max_abs);
                }
            }
            return None;
        }
        acc = next;
        i = i + 1;
    }
    assert(v@.subrange(start as int, hi as int) == body);
    if neg {
        Some(-(acc as i64))
    } else {
        Some(acc as i64)
    }
}

/// Parses `v[lo..hi]` as the standard library parses a `usize`.
pub fn parse_index(v: &Vec<char>, lo: usize, hi: usize) -> (r: Option<usize>)
    requires
        lo <= hi <= v@.len(),
    ensures
        r == (match parse_int_in(v@.subrange(lo as int, hi as int), false, 0, usize::MAX as int) {
            Some(x) => Some(x as usize),
            None => None,
        }),
{
    let ghost s = v@.subrange(lo as int, hi as int);
    let mut start: usize = lo;
    if lo < hi && v[lo] == '+' {
        start = lo + 1;
    }
    let ghost body = v@.subrange(start as int, hi as int);
    assert(body == int_body(s, false));
    if start == hi {
        return None;
    }
    let mut acc: usize = 0;
    let mut i: usize = start;
    while i < hi
        invariant
            start <= i <= hi,
            hi <= v@.len(),
            body == v@.subrange(start as int, hi as int),
            body == int_body(s, false),
            s == v@.subrange(lo as int, hi as int),
            all_digits(v@.subrange(start as int, i as int)),
            acc as int == digits_value(v@.subrange(start as int, i as int)),
        decreases hi - i,
    {
        let c = v[i];
        if !('0' <= c && c <= '9') {
            assert(body[i - start] == c);
            assert(!is_digit(body[i - start]));
            assert(!all_digits(body));
            return None;
        }
        let d = (c as u32 - '0' as u32) as usize;
        assert(v@.subrange(start as int, i + 1).drop_last() == v@.subrange(start as int, i as int));
        assert(all_digits(v@.subrange(start as int, i + 1))) by {
            let p = v@.subrange(start as int, i + 1);
            assert forall|j: int| 0 <= j < p.len() implies is_digit(#[trigger] p[j]) by {
                if j < p.len() - 1 {
                    assert(p[j] == v@.subrange(start as int, i as int)[j]);
                }
            }
        }
        let ghost p = v@.subrange(start as int, i + 1);
        assert(p.last() == c);
        assert(digits_value(p) == acc * 10 + d);
        let next = match acc.checked_mul(10) {
            Some(m) => m.checked_add(d),
            None => None,
        };
        match next {
            Some(x) => {
                acc = x;
            },
            None => {
                proof {
                    if all_digits(body) {
                        lemma_digits_prefix(body, i + 1 - start);
                        assert(body.subrange(0, i + 1 - start) == v@.subrange(start as int, i + 1));
                        assert(digits_value(body) > usize::MAX);
                    }
                }
                return None;
            },
        }
        i = i + 1;
    }
    assert(v@.subrange(start as int, hi as int) == body);
    Some(acc)
}

} // verus!
