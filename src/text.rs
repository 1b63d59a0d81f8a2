use vstd::prelude::*;

verus! {

/// The character of a decimal digit `d` (`0 <= d < 10`).
pub open spec fn digit_char(d: int) -> char {
    (d + 48) as char
}

pub open spec fn is_digit(c: char) -> bool {
    '0' <= c && c <= '9'
}

pub open spec fn digit_value(c: char) -> int {
    c as int - 48
}

pub open spec fn all_digits(s: Seq<char>) -> bool {
    forall|i: int| 0 <= i < s.len() ==> is_digit(#[trigger] s[i])
}

/// Canonical decimal text of `n`: no sign, no leading zeros.
pub open spec fn dec_text(n: nat) -> Seq<char>
    decreases n,
{
    if n < 10 {
        seq![digit_char(n as int)]
    } else {
        dec_text(n / 10).push(digit_char((n % 10) as int))
    }
}

/// The number that a string of decimal digits denotes.
pub open spec fn digits_value(s: Seq<char>) -> nat
    decreases s.len(),
{
    if s.len() == 0 {
        0
    } else {
        (digits_value(s.drop_last()) * 10 + digit_value(s.last())) as nat
    }
}

/// What `parse_decimal` makes of `s` with bound `limit`.
pub open spec fn decimal_of(s: Seq<char>, limit: nat) -> Option<nat> {
    if s.len() > 0 && all_digits(s) && digits_value(s) <= limit {
        Some(digits_value(s))
    } else {
        None
    }
}

/// `parts` joined with `sep` between each two of them.
pub open spec fn join(parts: Seq<Seq<char>>, sep: char) -> Seq<char>
    decreases parts.len(),
{
    if parts.len() == 0 {
        Seq::empty()
    } else if parts.len() == 1 {
        parts[0]
    } else {
        join(parts.drop_last(), sep).push(sep) + parts.last()
    }
}

/// The pieces of `s` between occurrences of `sep` (always at least one).
pub open spec fn split(s: Seq<char>, sep: char) -> Seq<Seq<char>>
    decreases s.len(),
{
    if s.len() == 0 {
        seq![Seq::empty()]
    } else {
        let p = split(s.drop_last(), sep);
        if s.last() == sep {
            p.push(Seq::empty())
        } else {
            p.update(p.len() - 1, p.last().push(s.last()))
        }
    }
}

pub open spec fn free_of(s: Seq<char>, sep: char) -> bool {
    !s.contains(sep)
}

pub proof fn lemma_split_nonempty(s: Seq<char>, sep: char)
    ensures
        split(s, sep).len() >= 1,
    decreases s.len(),
{
    if s.len() > 0 {
        lemma_split_nonempty(s.drop_last(), sep);
    }
}

pub proof fn lemma_dec_text_digits(n: nat)
    ensures
        all_digits(dec_text(n)),
        dec_text(n).len() >= 1,
        digits_value(dec_text(n)) == n,
    decreases n,
{
    if n >= 10 {
        lemma_dec_text_digits(n / 10);
        let t = dec_text(n);
        assert(t.drop_last() == dec_text(n / 10));
        assert(digit_value(digit_char((n % 10) as int)) == n % 10);
        assert(t.last() == digit_char((n % 10) as int));
        assert(digits_value(t) == (n / 10) * 10 + n % 10);
        assert(is_digit(digit_char((n % 10) as int)));
        assert forall|i: int| 0 <= i < t.len() implies is_digit(#[trigger] t[i]) by {
            if i < t.len() - 1 {
                assert(t[i] == dec_text(n / 10)[i]);
            }
        }
    } else {
        let t = dec_text(n);
        assert(t.drop_last() =~= Seq::<char>::empty());
        assert(digit_value(digit_char(n as int)) == n);
        assert(t.last() == digit_char(n as int));
        assert(digits_value(t) == digits_value(t.drop_last()) * 10 + digit_value(t.last()));
    }
}

proof fn lemma_split_plain_suffix(x: Seq<char>, b: Seq<char>, sep: char)
    requires
        free_of(b, sep),
    ensures
        split(x + b, sep).len() == split(x, sep).len(),
        split(x + b, sep) == split(x, sep).update(
            split(x, sep).len() - 1,
            split(x, sep).last() + b,
        ),
    decreases b.len(),
{
    lemma_split_nonempty(x, sep);
    if b.len() == 0 {
        assert(x + b == x);
        assert(split(x, sep).last() + b == split(x, sep).last());
        assert(split(x, sep).update(split(x, sep).len() - 1, split(x, sep).last()) == split(
            x,
            sep,
        ));
    } else {
        let b0 = b.drop_last();
        assert(!b0.contains(sep)) by {
            if b0.contains(sep) {
                let i = choose|i: int| 0 <= i < b0.len() && b0[i] == sep;
                assert(b[i] == sep);
            }
        }
        lemma_split_plain_suffix(x, b0, sep);
        assert((x + b).drop_last() == x + b0);
        assert((x + b).last() == b.last());
        assert(b.last() != sep) by {
            assert(b[b.len() - 1] == b.last());
        }
        let p = split(x + b0, sep);
        assert(split(x + b, sep) == p.update(p.len() - 1, p.last().push(b.last())));
        assert(b0.push(b.last()) =~= b);
        assert((split(x, sep).last() + b0).push(b.last()) =~= split(x, sep).last() + b);
        assert(split(x + b, sep) =~= split(x, sep).update(
            split(x, sep).len() - 1,
            split(x, sep).last() + b,
        ));
    }
}

/// Splitting on `sep` undoes joining with `sep`, for pieces free of `sep`.
pub proof fn lemma_split_join(parts: Seq<Seq<char>>, sep: char)
    requires
        parts.len() >= 1,
        forall|i: int| 0 <= i < parts.len() ==> free_of(#[trigger] parts[i], sep),
    ensures
        split(join(parts, sep), sep) == parts,
    decreases parts.len(),
{
    if parts.len() == 1 {
        lemma_split_plain_suffix(Seq::empty(), parts[0], sep);
        assert(Seq::<char>::empty() + parts[0] == parts[0]);
        assert(split(Seq::empty(), sep) == seq![Seq::<char>::empty()]);
        assert(split(join(parts, sep), sep) =~= parts);
    } else {
        let init = parts.drop_last();
        assert forall|i: int| 0 <= i < init.len() implies free_of(#[trigger] init[i], sep) by {
            assert(init[i] == parts[i]);
        }
        lemma_split_join(init, sep);
        let head = join(init, sep).push(sep);
        assert(head.drop_last() == join(init, sep));
        assert(split(head, sep) == parts.drop_last().push(Seq::empty()));
        assert(free_of(parts.last(), sep)) by {
            assert(parts[parts.len() - 1] == parts.last());
        }
        lemma_split_plain_suffix(head, parts.last(), sep);
        assert(Seq::<char>::empty() + parts.last() == parts.last());
        assert(split(join(parts, sep), sep) =~= parts);
    }
}

/// Appends the decimal text of `n` to `out`.
pub fn push_decimal(out: &mut Vec<char>, n: u64)
    ensures
        final(out)@ == old(out)@ + dec_text(n as nat),
    decreases n,
{
    if n >= 10 {
        push_decimal(out, n / 10);
    }
    let c = ((n % 10) as u8 + 48) as char;
    out.push(c);
    proof {
        if n < 10 {
            assert(dec_text(n as nat) == seq![digit_char(n as int)]);
        }
    }
}

proof fn lemma_digits_value_prefix_le(s: Seq<char>, i: int)
    requires
        all_digits(s),
        0 <= i <= s.len(),
    ensures
        digits_value(s.take(i)) <= digits_value(s),
    decreases s.len() - i,
{
    if i < s.len() {
        lemma_digits_value_prefix_le(s, i + 1);
        assert(s.take(i + 1).drop_last() == s.take(i));
        assert(is_digit(s[i]));
    } else {
        assert(s.take(i) == s);
    }
}

/// Reads the decimal number in `s[lo..hi]`, if it is one and at most `limit`.
pub fn parse_decimal(s: &Vec<char>, lo: usize, hi: usize, limit: u64) -> (r: Option<u64>)
    requires
        lo <= hi <= s@.len(),
    ensures
        match decimal_of(s@.subrange(lo as int, hi as int), limit as nat) {
            Some(v) => r == Some(v as u64),
            None => r is None,
        },
{
    let ghost t = s@.subrange(lo as int, hi as int);
    if lo == hi {
        return None;
    }
    let mut i: usize = lo;
    while i < hi
        invariant
            lo <= i <= hi <= s@.len(),
            t == s@.subrange(lo as int, hi as int),
            forall|k: int| 0 <= k < i - lo ==> is_digit(#[trigger] t[k]),
        decreases hi - i,
    {
        let c = s[i];
        if !('0' <= c && c <= '9') {
            assert(!is_digit(t[i - lo]));
            return None;
        }
        i = i + 1;
    }
    assert(all_digits(t));
    let mut v: u64 = 0;
    let mut j: usize = lo;
    while j < hi
        invariant
            lo <= j <= hi <= s@.len(),
            t == s@.subrange(lo as int, hi as int),
            all_digits(t),
            v as nat == digits_value(t.take(j - lo)),
            v <= limit,
        decreases hi - j,
    {
        let c = s[j];
        assert(is_digit(t[j - lo]));
        let d = (c as u32 - 48) as u64;
        assert(t.take(j - lo + 1).drop_last() == t.take(j - lo));
        assert(t.take(j - lo + 1).last() == c);
        if d > limit {
            proof {
                lemma_digits_value_prefix_le(t, j - lo + 1);
            }
            return None;
        }
        if v > (limit - d) / 10 {
            proof {
                assert(digits_value(t.take(j - lo + 1)) > limit) by (nonlinear_arith)
                    requires
                        digits_value(t.take(j - lo + 1)) == v * 10 + d,
                        v > (limit - d) / 10,
                        d <= limit,
                ;
                lemma_digits_value_prefix_le(t, j - lo + 1);
            }
            return None;
        }
        assert(v * 10 + d <= limit) by (nonlinear_arith)
            requires
                v <= (limit - d) / 10,
                d <= limit,
        ;
        v = v * 10 + d;
        j = j + 1;
    }
    assert(t.take(t.len() as int) == t);
    Some(v)
}

/// Splits `s[lo..hi]` at each `sep`, giving each piece as a `(start, end)` range.
pub fn split_ranges(s: &Vec<char>, lo: usize, hi: usize, sep: char) -> (r: Vec<(usize, usize)>)
    requires
        lo <= hi <= s@.len(),
    ensures
        r@.len() >= 1,
        r@.len() == split(s@.subrange(lo as int, hi as int), sep).len(),
        forall|k: int|
            0 <= k < r@.len() ==> {
                &&& lo <= (#[trigger] r@[k]).0 <= r@[k].1 <= hi
                &&& s@.subrange(r@[k].0 as int, r@[k].1 as int) == split(
                    s@.subrange(lo as int, hi as int),
                    sep,
                )[k]
            },
{
    let ghost t = s@.subrange(lo as int, hi as int);
    let mut r: Vec<(usize, usize)> = Vec::new();
    let mut start: usize = lo;
    let mut i: usize = lo;
    while i < hi
        invariant
            lo <= start <= i <= hi <= s@.len(),
            t == s@.subrange(lo as int, hi as int),
            r@.len() + 1 == split(t.take(i - lo), sep).len(),
            forall|k: int|
                0 <= k < r@.len() ==> {
                    &&& lo <= (#[trigger] r@[k]).0 <= r@[k].1 <= hi
                    &&& s@.subrange(r@[k].0 as int, r@[k].1 as int) == split(t.take(i - lo), sep)[k]
                },
            s@.subrange(start as int, i as int) == split(t.take(i - lo), sep).last(),
        decreases hi - i,
    {
        proof {
            lemma_split_nonempty(t.take(i - lo), sep);
            assert(t.take(i - lo + 1).drop_last() == t.take(i - lo));
            assert(t.take(i - lo + 1).last() == s@[i as int]);
        }
        if s[i] == sep {
            r.push((start, i));
            start = i + 1;
            assert(s@.subrange(start as int, (i + 1) as int) == Seq::<char>::empty());
        } else {
            assert(s@.subrange(start as int, (i + 1) as int) == s@.subrange(
                start as int,
                i as int,
            ).push(s@[i as int]));
        }
        i = i + 1;
    }
    assert(t.take(hi - lo) == t);
    r.push((start, hi));
    r
}

} // verus!

verus! {

/// The characters of `s`, in order.
pub fn chars_of(s: &str) -> (r: Vec<char>)
    ensures
        r@ == s@,
{
    broadcast use vstd::string::group_string_axioms;
    let mut r: Vec<char> = Vec::new();
    for c in it: s.chars()
        invariant
            r@ == it.seq().take(it.index() as int),
    {
        r.push(c);
    }
    r
}

/// Relies on `String::from_iter` over chars: the string of the characters `c`, in order.
#[verifier::external_body]
pub(crate) fn string_of(c: &[char]) -> (r: String)
    ensures
        r@ == c@,
{
    String::from_iter(c.iter())
}

/// A copy of `s[lo..hi]`.
pub fn copy_range(s: &Vec<char>, lo: usize, hi: usize) -> (r: Vec<char>)
    requires
        lo <= hi <= s@.len(),
    ensures
        r@ == s@.subrange(lo as int, hi as int),
{
    let mut r: Vec<char> = Vec::new();
    let mut i: usize = lo;
    while i < hi
        invariant
            lo <= i <= hi <= s@.len(),
            r@ == s@.subrange(lo as int, i as int),
        decreases hi - i,
    {
        r.push(s[i]);
        i = i + 1;
    }
    r
}

} // verus!
