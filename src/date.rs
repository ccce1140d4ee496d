//! Calendar dates as (year, month, day).

use vstd::prelude::*;
use chrono::Datelike;
use crate::text::{chars_of, nat_text, parse_int_in, parse_int_range, string_of};
use crate::price::{digit_of, nat_chars};

verus! {

/// A calendar date: year, month, day.
#[derive(Clone, Copy, Debug, PartialEq, Eq, Structural)]
pub struct Date(pub u16, pub u8, pub u8);

/// The value of a date field, or zero where the text is no number in range.
pub open spec fn field_value(s: Seq<char>, max: int) -> int {
    match parse_int_in(s, false, 0, max) {
        Some(v) => v,
        None => 0,
    }
}

/// The parts of `s` between `-` separators.
pub open spec fn dash_parts(s: Seq<char>) -> Seq<Seq<char>>
    decreases s.len(),
{
    let d = crate::text::first_index_of(s, '-');
    if d < 0 || d >= s.len() {
        seq![s]
    } else {
        seq![s.take(d)] + dash_parts(s.skip(d + 1))
    }
}

/// The date that `YYYY-MM-DD` text denotes: a field that is no number in
/// range reads as 0; text without exactly three `-`-separated parts gives
/// 1970-01-01.
pub open spec fn date_value(s: Seq<char>) -> Date {
    let parts = dash_parts(s);
    if parts.len() == 3 {
        Date(field_value(parts[0], 0xffff) as u16, field_value(parts[1], 0xff) as u8, field_value(parts[2], 0xff) as u8)
    } else {
        Date(1970, 1, 1)
    }
}

/// `n` rendered in decimal, left-padded with zeros to `w` characters.
pub open spec fn padded_text(n: nat, w: nat) -> Seq<char> {
    let t = nat_text(n);
    if t.len() >= w {
        t
    } else {
        Seq::new((w - t.len()) as nat, |i: int| '0') + t
    }
}

/// `YYYY-MM-DD` rendering.
pub open spec fn date_text(d: Date) -> Seq<char> {
    padded_text(d.0 as nat, 4) + seq!['-'] + padded_text(d.1 as nat, 2) + seq!['-'] + padded_text(
        d.2 as nat,
        2,
    )
}

/// Relies on `chrono::Local::now` with `Datelike::{year, month, day}`: the
/// current local date; chrono documents month in 1..=12 and day in 1..=31.
/// The year is narrowed to 16 bits.
#[verifier::external_body]
fn local_today() -> (r: (u16, u8, u8))
    ensures
        1 <= r.1 <= 12,
        1 <= r.2 <= 31,
{
    let now = chrono::Local::now();
    (now.year() as u16, now.month() as u8, now.day() as u8)
}

/// Zero-padded decimal text of `n`.
fn padded_chars(n: u32, w: usize) -> (r: Vec<char>)
    requires
        w <= 8,
    ensures
        r@ == padded_text(n as nat, w as nat),
{
    let t = nat_chars(n);
    if t.len() >= w {
        return t;
    }
    let mut r: Vec<char> = Vec::new();
    let pad = w - t.len();
    let mut i: usize = 0;
    while i < pad
        invariant
            i <= pad,
            r@ == Seq::new(i as nat, |j: int| '0'),
        decreases pad - i,
    {
        r.push('0');
        i = i + 1;
        assert(r@ =~= Seq::new(i as nat, |j: int| '0'));
    }
    let mut t2 = t;
    r.append(&mut t2);
    r
}

impl Date {
    /// 1970-01-01.
    pub fn epoch() -> (r: Date)
        ensures
            r == Date(1970, 1, 1),
    {
        Date(1970, 1, 1)
    }

    /// Reads `YYYY-MM-DD`.
    pub fn parse(s: &str) -> (r: Date)
        ensures
            r == date_value(s@),
    {
        let v = chars_of(s);
        let n = v.len();
        let mut starts: Vec<usize> = Vec::new();
        let mut ends: Vec<usize> = Vec::new();
        let mut lo: usize = 0;
        let mut i: usize = 0;
        proof {
            assert(v@.skip(0) == v@);
        }
        while i < n
            invariant
                lo <= i <= n,
                n == v@.len(),
                starts@.len() == ends@.len(),
                forall|j: int| 0 <= j < starts@.len() ==> #[trigger] starts@[j] <= ends@[j] && ends@[j] <= n,
                forall|j: int| lo <= j < i ==> v@[j] != '-',
                dash_parts(v@) == Seq::new(starts@.len(), |j: int| v@.subrange(starts@[j] as int, ends@[j] as int))
                    + dash_parts(v@.skip(lo as int)),
            decreases n - i,
        {
            if v[i] == '-' {
                proof {
                    let rest = v@.skip(lo as int);
                    crate::text::lemma_first_index_of(rest, '-');
                    assert forall|j: int| 0 <= j < i - lo implies rest[j] != '-' by {
                        assert(rest[j] == v@[lo + j]);
                    }
                    assert(rest[i - lo] == '-');
                    assert(crate::text::first_index_of(rest, '-') == i - lo);
                    assert(rest.take(i - lo) == v@.subrange(lo as int, i as int));
                    assert(rest.skip(i - lo + 1) == v@.skip(i + 1));
                }
                let ghost old_seq = Seq::new(starts@.len(), |j: int| v@.subrange(starts@[j] as int, ends@[j] as int));
                starts.push(lo);
                ends.push(i);
                let ghost new_seq = Seq::new(starts@.len(), |j: int| v@.subrange(starts@[j] as int, ends@[j] as int));
                assert(new_seq =~= old_seq + seq![v@.subrange(lo as int, i as int)]);
                lo = i + 1;
            }
            i = i + 1;
        }
        proof {
            let rest = v@.skip(lo as int);
            crate::text::lemma_first_index_of(rest, '-');
            assert forall|j: int| 0 <= j < rest.len() implies rest[j] != '-' by {
                assert(rest[j] == v@[lo + j]);
            }
            assert(crate::text::first_index_of(rest, '-') >= rest.len());
            assert(rest == v@.subrange(lo as int, n as int));
        }
        let ghost old_seq = Seq::new(starts@.len(), |j: int| v@.subrange(starts@[j] as int, ends@[j] as int));
        starts.push(lo);
        ends.push(n);
        assert(Seq::new(starts@.len(), |j: int| v@.subrange(starts@[j] as int, ends@[j] as int)) =~= old_seq + seq![v@.subrange(lo as int, n as int)]);
        assert(dash_parts(v@) == Seq::new(starts@.len(), |j: int| v@.subrange(starts@[j] as int, ends@[j] as int)));
        if starts.len() != 3 {
            return Date(1970, 1, 1);
        }
        let y = match parse_int_range(&v, starts[0], ends[0], false, 0xffff) {
            Some(x) => x as u16,
            None => 0,
        };
        let m = match parse_int_range(&v, starts[1], ends[1], false, 0xff) {
            Some(x) => x as u8,
            None => 0,
        };
        let d = match parse_int_range(&v, starts[2], ends[2], false, 0xff) {
            Some(x) => x as u8,
            None => 0,
        };
        Date(y, m, d)
    }

    /// Today's local date.
    pub fn today() -> (r: Date)
        ensures
            1 <= r.1 <= 12,
            1 <= r.2 <= 31,
    {
        let (y, m, d) = local_today();
        Date(y, m, d)
    }

    /// `YYYY-MM-DD`.
    pub fn render(&self) -> (r: String)
        ensures
            r@ == date_text(*self),
    {
        let mut out = padded_chars(self.0 as u32, 4);
        out.push('-');
        let mut m = padded_chars(self.1 as u32, 2);
        out.append(&mut m);
        out.push('-');
        let mut d = padded_chars(self.2 as u32, 2);
        out.append(&mut d);
        string_of(out.as_slice())
    }
}

impl Default for Date {
    fn default() -> (r: Date)
        ensures
            r == Date(1970, 1, 1),
    {
        Date(1970, 1, 1)
    }
}

} // verus!
