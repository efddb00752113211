//! Character-level parsing of decimal numerals, shared by every quantity
//! type: plain whole numbers and fixed-point decimals with a bounded number
//! of fractional digits.

use vstd::prelude::*;

use crate::errors::Error;

verus! {

/// Whether `c` is a decimal digit.
pub open spec fn is_digit(c: char) -> bool {
    48 <= c as u32 <= 57
}

/// The value of a decimal digit.
pub open spec fn digit_val(c: char) -> int {
    c as u32 - 48
}

/// Whether every character of `s` is a decimal digit.
pub open spec fn all_digits(s: Seq<char>) -> bool {
    forall|i: int| 0 <= i < s.len() ==> is_digit(#[trigger] s[i])
}

/// The value of a sequence of decimal digits, most significant first.
pub open spec fn dec_val(s: Seq<char>) -> int
    decreases s.len(),
{
    if s.len() == 0 {
        0
    } else {
        dec_val(s.drop_last()) * 10 + digit_val(s.last())
    }
}

/// Ten to the `n`.
pub open spec fn pow10(n: nat) -> int
    decreases n,
{
    if n == 0 {
        1
    } else {
        10 * pow10((n - 1) as nat)
    }
}

/// How many times `c` occurs in `s`.
pub open spec fn count_char(s: Seq<char>, c: char) -> nat
    decreases s.len(),
{
    if s.len() == 0 {
        0
    } else {
        count_char(s.drop_last(), c) + if s.last() == c { 1nat } else { 0nat }
    }
}

/// The position of the first occurrence of `c` in `s`, where there is one.
pub open spec fn first_pos(s: Seq<char>, c: char) -> int {
    choose|p: int|
        0 <= p < s.len() && s[p] == c && (forall|j: int| 0 <= j < p ==> s[j] != c)
}

/// A position seen to hold the first occurrence of `c` is `first_pos`.
pub proof fn lemma_first_pos(s: Seq<char>, c: char, p: int)
    requires
        0 <= p < s.len(),
        s[p] == c,
        forall|j: int| 0 <= j < p ==> s[j] != c,
    ensures
        first_pos(s, c) == p,
{
    assert(0 <= p < s.len() && s[p] == c && (forall|j: int| 0 <= j < p ==> s[j] != c));
    assert(exists|q: int|
        0 <= q < s.len() && s[q] == c && (forall|j: int| 0 <= j < q ==> s[j] != c));
    let q = first_pos(s, c);
    if q < p {
        assert(s[q] != c);
    }
    if p < q {
        assert(s[p] != c);
    }
}

/// A character occurs in `s` exactly when its count is positive.
pub proof fn lemma_count_char_zero(s: Seq<char>, c: char)
    ensures
        count_char(s, c) == 0 <==> (forall|j: int| 0 <= j < s.len() ==> s[j] != c),
    decreases s.len(),
{
    if s.len() > 0 {
        lemma_count_char_zero(s.drop_last(), c);
        if count_char(s, c) == 0 {
            assert forall|j: int| 0 <= j < s.len() implies s[j] != c by {
                if j < s.len() - 1 {
                    assert(s.drop_last()[j] == s[j]);
                }
            }
        } else {
            if s.last() != c {
                let j = choose|j: int| 0 <= j < s.len() - 1 && s.drop_last()[j] == c;
                assert(s[j] == c);
            }
        }
    }
}

/// A digit string has a non-negative value.
pub proof fn lemma_dec_val_nonneg(s: Seq<char>)
    requires
        all_digits(s),
    ensures
        dec_val(s) >= 0,
    decreases s.len(),
{
    if s.len() > 0 {
        assert(all_digits(s.drop_last()));
        lemma_dec_val_nonneg(s.drop_last());
    }
}

/// Extending a digit string never lowers its value.
pub proof fn lemma_dec_val_prefix_le(s: Seq<char>, i: int, j: int)
    requires
        all_digits(s),
        0 <= i <= j <= s.len(),
    ensures
        dec_val(s.subrange(0, i)) <= dec_val(s.subrange(0, j)),
    decreases j - i,
{
    if i < j {
        let t = s.subrange(0, j);
        assert(all_digits(t));
        assert(t.drop_last() == s.subrange(0, j - 1));
        lemma_dec_val_nonneg(s.subrange(0, j - 1));
        assert(dec_val(s.subrange(0, j - 1)) <= dec_val(s.subrange(0, j)));
        lemma_dec_val_prefix_le(s, i, j - 1);
    }
}

/// The digits of `s` between `from` and `to`, parsed as a whole number.
/// Fails when the range is empty, holds a non-digit, or the value leaves
/// the machine range.
pub fn parse_digits(s: &str, from: usize, to: usize) -> (r: Result<u64, Error>)
    requires
        from <= to <= s@.len(),
    ensures
        ({
            let t = s@.subrange(from as int, to as int);
            if t.len() >= 1 && all_digits(t) && dec_val(t) <= u64::MAX {
                r == Ok::<u64, Error>(dec_val(t) as u64)
            } else {
                r == Err::<u64, Error>(Error::SpecFormat)
            }
        }),
{
    let ghost t = s@.subrange(from as int, to as int);
    if from == to {
        return Err(Error::SpecFormat);
    }
    let mut acc: u64 = 0;
    let mut i: usize = from;
    while i < to
        invariant
            from <= i <= to <= s@.len(),
            t == s@.subrange(from as int, to as int),
            all_digits(t.subrange(0, i - from)),
            acc == dec_val(t.subrange(0, i - from)),
        decreases to - i,
    {
        let c = s.get_char(i);
        let u = c as u32;
        proof {
            assert(t[i - from] == s@[i as int]);
        }
        if u < 48 || u > 57 {
            assert(!is_digit(t[i - from]));
            return Err(Error::SpecFormat);
        }
        let d: u64 = (u - 48) as u64;
        let ghost prev = t.subrange(0, i - from);
        let ghost cur = t.subrange(0, i + 1 - from);
        proof {
            assert(cur.drop_last() == prev);
            assert(cur.last() == t[i - from]);
            assert(all_digits(cur));
            assert(dec_val(cur) == acc * 10 + d);
        }
        let step = match acc.checked_mul(10) {
            Some(m) => m.checked_add(d),
            None => None,
        };
        match step {
            Some(v) => {
                acc = v;
            },
            None => {
                proof {
                    if all_digits(t) {
                        lemma_dec_val_prefix_le(t, i + 1 - from, t.len() as int);
                        assert(t.subrange(0, t.len() as int) == t);
                        assert(dec_val(t) > u64::MAX);
                    }
                }
                return Err(Error::SpecFormat);
            },
        }
        i = i + 1;
    }
    proof {
        assert(t.subrange(0, to - from) == t);
    }
    Ok(acc)
}

/// Where a dot may split `s` into a whole part and a fractional part of at
/// most `fd` digits.
pub open spec fn dot_split_ok(s: Seq<char>, fd: nat, p: int) -> bool {
    &&& 1 <= p < s.len()
    &&& s[p] == '.'
    &&& all_digits(s.subrange(0, p))
    &&& all_digits(s.subrange(p + 1, s.len() as int))
    &&& 1 <= s.len() - (p + 1) <= fd
}

/// The value of a dotted numeral split at `p`, scaled by ten to the `fd`.
pub open spec fn dot_split_val(s: Seq<char>, fd: nat, p: int) -> int {
    dec_val(s.subrange(0, p)) * pow10(fd) + dec_val(s.subrange(p + 1, s.len() as int)) * pow10(
        (fd - (s.len() - (p + 1))) as nat,
    )
}

/// The value of a decimal numeral, scaled by ten to the `fd`: either a
/// plain digit string, or digits, a dot, and one to `fd` fractional digits.
/// `None` when the shape is wrong or the value leaves the machine range.
pub open spec fn spec_parse_scaled(s: Seq<char>, fd: nat) -> Option<int> {
    if s.len() >= 1 && all_digits(s) && dec_val(s) * pow10(fd) <= u64::MAX {
        Some(dec_val(s) * pow10(fd))
    } else if exists|p: int| dot_split_ok(s, fd, p) {
        let p = choose|p: int| dot_split_ok(s, fd, p);
        if dot_split_val(s, fd, p) <= u64::MAX {
            Some(dot_split_val(s, fd, p))
        } else {
            None
        }
    } else {
        None
    }
}

/// A dot position satisfying `dot_split_ok` is unique.
pub proof fn lemma_dot_split_unique(s: Seq<char>, fd: nat, p1: int, p2: int)
    requires
        dot_split_ok(s, fd, p1),
        dot_split_ok(s, fd, p2),
    ensures
        p1 == p2,
{
    if p1 < p2 {
        assert(s.subrange(p1 + 1, s.len() as int)[p2 - p1 - 1] == s[p2]);
        assert(is_digit(s[p2]));
    } else if p2 < p1 {
        assert(s.subrange(p2 + 1, s.len() as int)[p1 - p2 - 1] == s[p1]);
        assert(is_digit(s[p1]));
    }
}

/// Ten to the `e`, executable for small exponents.
pub fn pow10_exec(e: usize) -> (r: u64)
    requires
        e <= 7,
    ensures
        r == pow10(e as nat),
{
    let mut r: u64 = 1;
    let mut i: usize = 0;
    while i < e
        invariant
            0 <= i <= e <= 7,
            r == pow10(i as nat),
        decreases e - i,
    {
        proof {
            lemma_pow10_bound(i as nat);
        }
        r = r * 10;
        i = i + 1;
    }
    r
}

/// Small powers of ten stay small.
pub proof fn lemma_pow10_bound(n: nat)
    requires
        n <= 7,
    ensures
        pow10(n) <= 10000000,
        pow10(n) >= 1,
{
    assert(pow10(0) == 1);
    assert(pow10(1) == 10);
    assert(pow10(2) == 100);
    assert(pow10(3) == 1000);
    assert(pow10(4) == 10000);
    assert(pow10(5) == 100000);
    assert(pow10(6) == 1000000);
    assert(pow10(7) == 10000000);
}

/// Parse the characters of `s` between `from` and `to` as a decimal
/// numeral scaled by ten to the `fd`: exactly `spec_parse_scaled` on that
/// range, with every failure a spec-format error.
pub fn parse_scaled(s: &str, from: usize, to: usize, fd: usize) -> (r: Result<u64, Error>)
    requires
        from <= to <= s@.len(),
        fd <= 6,
    ensures
        ({
            let t = s@.subrange(from as int, to as int);
            match spec_parse_scaled(t, fd as nat) {
                Some(v) => r == Ok::<u64, Error>(v as u64),
                None => r == Err::<u64, Error>(Error::SpecFormat),
            }
        }),
{
    let ghost t = s@.subrange(from as int, to as int);
    // Find the dot, if any.
    let mut i: usize = from;
    let mut dot: usize = to;
    let mut found = false;
    while i < to
        invariant
            from <= i <= to <= s@.len(),
            t == s@.subrange(from as int, to as int),
            !found ==> dot == to && (forall|j: int| 0 <= j < i - from ==> t[j] != '.'),
            found ==> from <= dot < i && t[dot - from] == '.' && (forall|j: int|
                0 <= j < dot - from ==> t[j] != '.'),
        decreases to - i,
    {
        let c = s.get_char(i);
        proof {
            assert(t[i - from] == s@[i as int]);
        }
        if c == '.' && !found {
            dot = i;
            found = true;
        }
        i = i + 1;
    }
    if !found {
        // Plain digit string.
        let scale = pow10_exec(fd);
        proof {
            lemma_pow10_bound(fd as nat);
            if t.len() >= 1 && all_digits(t) {
                lemma_dec_val_nonneg(t);
                assert(dec_val(t) * pow10(fd as nat) >= dec_val(t)) by (nonlinear_arith)
                    requires
                        dec_val(t) >= 0,
                        pow10(fd as nat) >= 1,
                ;
            }
            assert forall|p: int| !dot_split_ok(t, fd as nat, p) by {
                if 0 <= p < t.len() {
                    assert(t[p] != '.');
                }
            }
        }
        match parse_digits(s, from, to) {
            Ok(v) => {
                match v.checked_mul(scale) {
                    Some(x) => Ok(x),
                    None => Err(Error::SpecFormat),
                }
            },
            Err(e) => Err(e),
        }
    } else {
        // A whole part, the dot, then a fractional part.
        let flen = to - (dot + 1);
        let ghost p = dot - from;
        let ghost wpart = t.subrange(0, p);
        let ghost fpart_s = t.subrange(p + 1, t.len() as int);
        proof {
            assert(wpart == s@.subrange(from as int, dot as int));
            assert(fpart_s == s@.subrange(dot + 1, to as int));
            assert(t[p] == '.');
            assert(!is_digit(t[p]));
            assert(!(t.len() >= 1 && all_digits(t)));
        }
        if dot == from || flen == 0 || flen > fd {
            proof {
                assert forall|q: int| !dot_split_ok(t, fd as nat, q) by {
                    if dot_split_ok(t, fd as nat, q) {
                        if q < p {
                            assert(t.subrange(q + 1, t.len() as int)[p - q - 1] == t[p]);
                            assert(is_digit(t[p]));
                        } else if q > p {
                            assert(t.subrange(0, q)[p] == t[p]);
                            assert(is_digit(t[p]));
                        }
                    }
                }
            }
            return Err(Error::SpecFormat);
        }
        let whole = parse_digits(s, from, dot);
        let frac = parse_digits(s, dot + 1, to);
        proof {
            // Any admissible split sits exactly at the dot we found.
            assert forall|q: int| dot_split_ok(t, fd as nat, q) implies q == p by {
                if q < p {
                    assert(t.subrange(q + 1, t.len() as int)[p - q - 1] == t[p]);
                    assert(is_digit(t[p]));
                } else if q > p {
                    assert(t.subrange(0, q)[p] == t[p]);
                    assert(is_digit(t[p]));
                }
            }
            lemma_pow10_bound(fd as nat);
            lemma_pow10_bound((fd - flen) as nat);
        }
        match (whole, frac) {
            (Ok(w), Ok(f)) => {
                proof {
                    assert(dot_split_ok(t, fd as nat, p));
                    lemma_dec_val_nonneg(wpart);
                    lemma_dec_val_nonneg(fpart_s);
                    assert(w * pow10(fd as nat) >= 0 && f * pow10((fd - flen) as nat) >= 0
                        && w * pow10(fd as nat) >= w && f * pow10((fd - flen) as nat) >= f) by (
                    nonlinear_arith)
                        requires
                            w >= 0,
                            f >= 0,
                            pow10(fd as nat) >= 1,
                            pow10((fd - flen) as nat) >= 1,
                    ;
                }
                let scale = pow10_exec(fd);
                let fscale = pow10_exec(fd - flen);
                let fr = match f.checked_mul(fscale) {
                    Some(x) => x,
                    None => {
                        return Err(Error::SpecFormat);
                    },
                };
                match w.checked_mul(scale) {
                    Some(x) => {
                        match x.checked_add(fr) {
                            Some(v) => Ok(v),
                            None => Err(Error::SpecFormat),
                        }
                    },
                    None => Err(Error::SpecFormat),
                }
            },
            _ => {
                proof {
                    if all_digits(wpart) && all_digits(fpart_s) {
                        // Both parts are digit strings, so one of them must
                        // have overflowed the machine range.
                        assert(dot_split_ok(t, fd as nat, p));
                        lemma_dec_val_nonneg(wpart);
                        lemma_dec_val_nonneg(fpart_s);
                        assert(dec_val(wpart) > u64::MAX || dec_val(fpart_s) > u64::MAX);
                        assert(dec_val(wpart) * pow10(fd as nat) >= dec_val(wpart) && dec_val(
                            wpart,
                        ) * pow10(fd as nat) >= 0 && dec_val(fpart_s) * pow10(
                            (fd - flen) as nat,
                        ) >= dec_val(fpart_s) && dec_val(fpart_s) * pow10((fd - flen) as nat)
                            >= 0) by (nonlinear_arith)
                            requires
                                dec_val(wpart) >= 0,
                                dec_val(fpart_s) >= 0,
                                pow10(fd as nat) >= 1,
                                pow10((fd - flen) as nat) >= 1,
                        ;
                        assert(dot_split_val(t, fd as nat, p) > u64::MAX);
                    } else {
                        assert(!dot_split_ok(t, fd as nat, p));
                        assert(forall|q: int| !dot_split_ok(t, fd as nat, q));
                    }
                }
                Err(Error::SpecFormat)
            },
        }
    }
}

/// Count how many times `c` occurs in `s` between `from` and `to`.
pub fn count_char_exec(s: &str, from: usize, to: usize, c: char) -> (r: usize)
    requires
        from <= to <= s@.len(),
    ensures
        r == count_char(s@.subrange(from as int, to as int), c),
        r <= to - from,
{
    let ghost t = s@.subrange(from as int, to as int);
    let mut cnt: usize = 0;
    let mut i: usize = from;
    while i < to
        invariant
            from <= i <= to <= s@.len(),
            t == s@.subrange(from as int, to as int),
            cnt == count_char(t.subrange(0, i - from), c),
            cnt <= i - from,
        decreases to - i,
    {
        let ghost prev = t.subrange(0, i - from);
        let ghost cur = t.subrange(0, i + 1 - from);
        proof {
            assert(cur.drop_last() == prev);
            assert(cur.last() == t[i - from]);
            assert(t[i - from] == s@[i as int]);
        }
        if s.get_char(i) == c {
            cnt = cnt + 1;
        }
        i = i + 1;
    }
    proof {
        assert(t.subrange(0, to - from) == t);
    }
    cnt
}

/// Find the first occurrence of `c` in `s` between `from` and `to`.
/// Returns `to` when there is none; whatever is returned, no earlier
/// position holds `c`.
pub fn find_char(s: &str, from: usize, to: usize, c: char) -> (r: usize)
    requires
        from <= to <= s@.len(),
    ensures
        from <= r <= to,
        r < to ==> s@[r as int] == c,
        forall|j: int| from <= j < r ==> s@[j] != c,
{
    let mut i: usize = from;
    while i < to
        invariant
            from <= i <= to <= s@.len(),
            forall|j: int| from <= j < i ==> s@[j] != c,
        decreases to - i,
    {
        if s.get_char(i) == c {
            return i;
        }
        i = i + 1;
    }
    to
}

} // verus!
