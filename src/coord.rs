use vstd::prelude::*;
use crate::text::{
    all_digits, dec_text, decimal_of, digit_char, digit_value, digits_value, free_of, is_digit,
    lemma_dec_text_digits, lemma_split_join, parse_decimal, push_decimal, split, split_ranges,
    join,
};

verus! {

/// A position along one axis, held in thousandths of a unit.
///
/// Its text is the plain decimal form: an optional `-`, the whole part, and,
/// when the fraction is not zero, a `.` and at most three fraction digits
/// with no trailing zero (`1`, `-0.5`, `12.125`).
#[derive(Clone, Copy, Debug, PartialEq, Eq, Structural)]
pub struct Coord {
    pub milli: i32,
}

/// Largest whole part that a coordinate can have.
pub const MAX_WHOLE: u64 = 2147483;

pub open spec fn abs(m: int) -> nat {
    if m < 0 { (-m) as nat } else { m as nat }
}

/// The digits after the point for a fraction of `f` thousandths, `0 < f < 1000`.
pub open spec fn frac_digits(f: int) -> Seq<char> {
    if f % 100 == 0 {
        seq![digit_char(f / 100)]
    } else if f % 10 == 0 {
        seq![digit_char(f / 100), digit_char((f / 10) % 10)]
    } else {
        seq![digit_char(f / 100), digit_char((f / 10) % 10), digit_char(f % 10)]
    }
}

/// The text of a coordinate of `m` thousandths.
pub open spec fn coord_text(m: int) -> Seq<char> {
    let a = abs(m);
    let sign = if m < 0 { seq!['-'] } else { Seq::<char>::empty() };
    let whole = dec_text(a / 1000);
    if a % 1000 == 0 {
        sign + whole
    } else {
        sign + whole.push('.') + frac_digits((a % 1000) as int)
    }
}

/// Thousandths that the digits `s` after a point stand for.
pub open spec fn frac_value(s: Seq<char>) -> Option<nat> {
    if 1 <= s.len() <= 3 && all_digits(s) {
        if s.len() == 1 {
            Some(digits_value(s) * 100)
        } else if s.len() == 2 {
            Some(digits_value(s) * 10)
        } else {
            Some(digits_value(s))
        }
    } else {
        None
    }
}

/// Thousandths that the unsigned text `u` stands for, unbounded.
pub open spec fn magnitude_of(u: Seq<char>) -> Option<nat> {
    let parts = split(u, '.');
    match decimal_of(parts[0], MAX_WHOLE as nat) {
        None => None,
        Some(w) => if parts.len() == 1 {
            Some(w * 1000)
        } else if parts.len() == 2 {
            match frac_value(parts[1]) {
                Some(f) => Some(w * 1000 + f),
                None => None,
            }
        } else {
            None
        },
    }
}

/// The thousandths that the text `t` denotes, when it is a coordinate's text
/// (leading zeros and a `-0` are read too).
pub open spec fn coord_of(t: Seq<char>) -> Option<int> {
    let neg = t.len() > 0 && t[0] == '-';
    let u = if neg { t.drop_first() } else { t };
    match magnitude_of(u) {
        None => None,
        Some(a) => if neg && a <= 2147483648 {
            Some(-a)
        } else if !neg && a <= 2147483647 {
            Some(a as int)
        } else {
            None
        },
    }
}

pub proof fn lemma_digits_free_of(s: Seq<char>, c: char)
    requires
        all_digits(s),
        !is_digit(c),
    ensures
        free_of(s, c),
{
    if s.contains(c) {
        let i = choose|i: int| 0 <= i < s.len() && s[i] == c;
        assert(is_digit(s[i]));
    }
}

proof fn lemma_frac_digits(f: int)
    requires
        0 < f < 1000,
    ensures
        all_digits(frac_digits(f)),
        frac_value(frac_digits(f)) == Some(f as nat),
{
    let d = frac_digits(f);
    let a = f / 100;
    let b = (f / 10) % 10;
    let c = f % 10;
    assert(f == a * 100 + b * 10 + c);
    let da = digit_char(a);
    let db = digit_char(b);
    let dc = digit_char(c);
    assert(digits_value(seq![da]) == a) by {
        assert(seq![da].drop_last() =~= Seq::<char>::empty());
        assert(seq![da].last() == da);
        assert(digit_value(da) == a);
        assert(digits_value(Seq::<char>::empty()) == 0);
        assert(digits_value(seq![da]) == digits_value(seq![da].drop_last()) * 10 + digit_value(
            seq![da].last(),
        ));
    }
    assert(digits_value(seq![da, db]) == a * 10 + b) by {
        assert(seq![da, db].drop_last() =~= seq![da]);
    }
    assert(digits_value(seq![da, db, dc]) == a * 100 + b * 10 + c) by {
        assert(seq![da, db, dc].drop_last() =~= seq![da, db]);
    }
    assert(is_digit(da) && is_digit(db) && is_digit(dc));
    assert(all_digits(d));
}

/// Reading a coordinate's text gives the coordinate back.
pub proof fn lemma_coord_round_trip(m: int)
    requires
        i32::MIN <= m <= i32::MAX,
    ensures
        coord_of(coord_text(m)) == Some(m),
{
    let t = coord_text(m);
    let a = abs(m);
    let w = a / 1000;
    let f = a % 1000;
    let whole = dec_text(w);
    lemma_dec_text_digits(w);
    lemma_digits_free_of(whole, '.');
    let u = if f == 0 { whole } else { whole.push('.') + frac_digits(f as int) };
    if m < 0 {
        assert(t == seq!['-'] + u);
        assert(t[0] == '-');
        assert(t.drop_first() =~= u);
    } else {
        assert(t =~= u);
        assert(is_digit(whole[0]));
        assert(t[0] == whole[0]);
    }
    if f == 0 {
        lemma_split_join(seq![whole], '.');
        assert(join(seq![whole], '.') == whole);
        assert(split(u, '.') == seq![whole]);
    } else {
        let fd = frac_digits(f as int);
        lemma_frac_digits(f as int);
        lemma_digits_free_of(fd, '.');
        let parts = seq![whole, fd];
        assert(parts.drop_last() =~= seq![whole]);
        assert(parts.last() == fd);
        assert(join(seq![whole], '.') == whole);
        assert(join(parts, '.') == whole.push('.') + fd);
        lemma_split_join(parts, '.');
        assert(split(u, '.') == parts);
    }
    assert(decimal_of(whole, MAX_WHOLE as nat) == Some(w));
}

impl Coord {
    /// The coordinate at `milli` thousandths of a unit.
    pub fn from_milli(milli: i32) -> (c: Coord)
        ensures
            c.milli == milli,
    {
        Coord { milli }
    }

    /// The coordinate at a whole number of units.
    pub fn whole(units: i32) -> (c: Coord)
        requires
            -2147483 <= units <= 2147483,
        ensures
            c.milli == units * 1000,
    {
        Coord { milli: units * 1000 }
    }

    /// Appends this coordinate's text to `out`.
    pub fn push_text(&self, out: &mut Vec<char>)
        ensures
            final(out)@ == old(out)@ + coord_text(self.milli as int),
    {
        let ghost start = out@;
        let m = self.milli as i64;
        let a: u64 = if m < 0 { (-m) as u64 } else { m as u64 };
        if m < 0 {
            out.push('-');
        }
        let ghost signed = out@;
        push_decimal(out, a / 1000);
        let f = a % 1000;
        if f != 0 {
            out.push('.');
            out.push(((f / 100) as u8 + 48) as char);
            if f % 100 != 0 {
                out.push((((f / 10) % 10) as u8 + 48) as char);
                if f % 10 != 0 {
                    out.push(((f % 10) as u8 + 48) as char);
                }
            }
        }
        proof {
            let sign = if m < 0 { seq!['-'] } else { Seq::<char>::empty() };
            assert(signed =~= start + sign);
            if f == 0 {
                assert(out@ =~= start + (sign + dec_text((a / 1000) as nat)));
            } else {
                assert(out@ =~= start + (sign + dec_text((a / 1000) as nat).push('.') + frac_digits(
                    f as int,
                )));
            }
        }
    }

    /// Reads a coordinate from the text `s[lo..hi]`.
    pub fn parse(s: &Vec<char>, lo: usize, hi: usize) -> (r: Option<Coord>)
        requires
            lo <= hi <= s@.len(),
        ensures
            match coord_of(s@.subrange(lo as int, hi as int)) {
                Some(m) => r == Some(Coord { milli: m as i32 }),
                None => r is None,
            },
    {
        let ghost t = s@.subrange(lo as int, hi as int);
        let neg = lo < hi && s[lo] == '-';
        let start = if neg { lo + 1 } else { lo };
        let ghost u = s@.subrange(start as int, hi as int);
        assert(u == (if neg { t.drop_first() } else { t }));
        let parts = split_ranges(s, start, hi, '.');
        let ghost ps = split(u, '.');
        assert(s@.subrange(parts[0].0 as int, parts[0].1 as int) == ps[0]);
        let whole = parse_decimal(s, parts[0].0, parts[0].1, MAX_WHOLE);
        let w = match whole {
            None => return None,
            Some(w) => w,
        };
        let mut mag: u64 = w * 1000;
        if parts.len() == 2 {
            let (flo, fhi) = parts[1];
            let ghost fs = s@.subrange(flo as int, fhi as int);
            assert(fs == ps[1]);
            if fhi - flo < 1 || fhi - flo > 3 {
                return None;
            }
            let fv = parse_decimal(s, flo, fhi, 999);
            match fv {
                None => {
                    proof {
                        if all_digits(fs) {
                            lemma_digits_bound(fs);
                        }
                    }
                    return None;
                },
                Some(v) => {
                    let scaled = if fhi - flo == 1 {
                        v * 100
                    } else if fhi - flo == 2 {
                        v * 10
                    } else {
                        v
                    };
                    assert(frac_value(fs) == Some(scaled as nat)) by {
                        assert(digits_value(fs) < 1000) by {
                            lemma_digits_bound(fs);
                        }
                    }
                    mag = mag + scaled;
                },
            }
        } else if parts.len() != 1 {
            return None;
        }
        if neg && mag <= 2147483648 {
            Some(Coord { milli: (-(mag as i64)) as i32 })
        } else if !neg && mag <= 2147483647 {
            Some(Coord { milli: mag as i32 })
        } else {
            None
        }
    }
}

proof fn lemma_digits_bound(s: Seq<char>)
    requires
        all_digits(s),
        s.len() <= 3,
    ensures
        digits_value(s) < 1000,
        s.len() <= 2 ==> digits_value(s) < 100,
        s.len() <= 1 ==> digits_value(s) < 10,
    decreases s.len(),
{
    if s.len() > 0 {
        let p = s.drop_last();
        assert(all_digits(p)) by {
            assert forall|i: int| 0 <= i < p.len() implies is_digit(#[trigger] p[i]) by {
                assert(p[i] == s[i]);
            }
        }
        lemma_digits_bound(p);
        assert(is_digit(s[s.len() - 1]));
    }
}

} // verus!
