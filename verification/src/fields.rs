//! The fields of a feed as numbers, times, dates and angles.

use crate::dates::Date;
use vstd::prelude::*;

verus! {

/// Whether a byte is a digit of ASCII.
pub open spec fn is_digit(b: u8) -> bool {
    48 <= b <= 57
}

/// Every byte is a digit.
pub open spec fn all_digits(s: Seq<u8>) -> bool {
    forall|i: int| 0 <= i < s.len() ==> is_digit(#[trigger] s[i])
}

/// The number that digits write in base ten.
pub open spec fn digits_value(s: Seq<u8>) -> nat
    decreases s.len(),
{
    if s.len() == 0 {
        0
    } else {
        (digits_value(s.drop_last()) * 10 + (s.last() - 48)) as nat
    }
}

/// The number that a field writes: one digit or more, and no more than 64
/// bits hold.
pub open spec fn uint_of(s: Seq<u8>) -> Option<u64> {
    if s.len() > 0 && all_digits(s) && digits_value(s) <= u64::MAX {
        Some(digits_value(s) as u64)
    } else {
        None
    }
}

/// More digits never write a smaller number.
pub proof fn lemma_digits_grow(s: Seq<u8>, k: int)
    requires
        all_digits(s),
        0 <= k <= s.len(),
    ensures
        digits_value(s.take(k)) <= digits_value(s),
    decreases s.len() - k,
{
    if k < s.len() {
        lemma_digits_grow(s, k + 1);
        assert(s.take(k + 1).drop_last() =~= s.take(k));
        assert(is_digit(s[k]));
        assert(s.take(k + 1).last() == s[k]);
    } else {
        assert(s.take(k) =~= s);
    }
}

/// Reads the number that the bytes from `from` to before `to` write.
#[verifier::rlimit(50)]
pub fn parse_uint_in(s: &Vec<u8>, from: usize, to: usize) -> (r: Option<u64>)
    requires
        from <= to <= s@.len(),
    ensures
        r == uint_of(s@.subrange(from as int, to as int)),
{
    let ghost part = s@.subrange(from as int, to as int);
    if from == to {
        return None;
    }
    let mut acc: u64 = 0;
    let mut i: usize = from;
    assert(part.take(0) =~= Seq::<u8>::empty());
    while i < to
        invariant
            from <= i <= to,
            to <= s@.len(),
            part == s@.subrange(from as int, to as int),
            all_digits(part.take(i - from)),
            acc == digits_value(part.take(i - from)),
        decreases to - i,
    {
        let b = s[i];
        let ghost k = i - from;
        proof {
            assert(part.take(k + 1).drop_last() =~= part.take(k));
            assert(part.take(k + 1).last() == b);
        }
        if b < 48 || b > 57 {
            assert(!is_digit(part[k]));
            return None;
        }
        let d = (b - 48) as u64;
        if acc > (u64::MAX - d) / 10 {
            proof {
                assert(all_digits(part.take(k + 1))) by {
                    assert forall|j: int| 0 <= j < k + 1 implies is_digit(
                        #[trigger] part.take(k + 1)[j],
                    ) by {
                        if j < k {
                            assert(part.take(k + 1)[j] == part.take(k)[j]);
                        }
                    }
                }
                if all_digits(part) {
                    lemma_digits_grow(part, k + 1);
                }
            }
            return None;
        }
        acc = acc * 10 + d;
        proof {
            assert forall|j: int| 0 <= j < k + 1 implies is_digit(#[trigger] part.take(k + 1)[j]) by {
                if j < k {
                    assert(part.take(k + 1)[j] == part.take(k)[j]);
                }
            }
        }
        i += 1;
    }
    assert(part.take(to - from) =~= part);
    Some(acc)
}

/// Reads the number that a field writes.
pub fn parse_uint(s: &Vec<u8>) -> (r: Option<u64>)
    ensures
        r == uint_of(s@),
{
    assert(s@.subrange(0, s@.len() as int) =~= s@);
    parse_uint_in(s, 0, s.len())
}

/// The time that a field writes as hours, minutes and seconds, in seconds
/// since midnight. The hours have one digit or more and may pass 24; the
/// minutes and the seconds have two digits and stay below 60.
pub open spec fn time_of(s: Seq<u8>) -> Option<u32> {
    let n = s.len() as int;
    if n >= 7 && s[n - 3] == 58 && s[n - 6] == 58 {
        match (uint_of(s.subrange(0, n - 6)), uint_of(s.subrange(n - 5, n - 3)), uint_of(
            s.subrange(n - 2, n),
        )) {
            (Some(h), Some(m), Some(sec)) => if m < 60 && sec < 60 && h * 3600 + m * 60 + sec
                <= u32::MAX {
                Some((h * 3600 + m * 60 + sec) as u32)
            } else {
                None
            },
            _ => None,
        }
    } else {
        None
    }
}

/// Reads the time that a field writes.
pub fn parse_time(s: &Vec<u8>) -> (r: Option<u32>)
    ensures
        r == time_of(s@),
{
    let n = s.len();
    if n < 7 || s[n - 3] != 58 || s[n - 6] != 58 {
        return None;
    }
    match (parse_uint_in(s, 0, n - 6), parse_uint_in(s, n - 5, n - 3), parse_uint_in(s, n - 2, n)) {
        (Some(h), Some(m), Some(sec)) => {
            if m < 60 && sec < 60 && h <= 1_193_046 {
                let total: u64 = h * 3600 + m * 60 + sec;
                if total <= u32::MAX as u64 {
                    Some(total as u32)
                } else {
                    None
                }
            } else {
                None
            }
        },
        _ => None,
    }
}

/// The day that a field of eight digits writes: four of the year, two of
/// the month, two of the day.
pub open spec fn date_of(s: Seq<u8>) -> Option<Date> {
    if s.len() == 8 {
        match (uint_of(s.subrange(0, 4)), uint_of(s.subrange(4, 6)), uint_of(s.subrange(6, 8))) {
            (Some(y), Some(m), Some(d)) => Some(
                Date { year: y as i32, month: m as u32, day: d as u32 },
            ),
            _ => None,
        }
    } else {
        None
    }
}

/// Ten to the power of `n`.
pub open spec fn pow10(n: nat) -> nat
    decreases n,
{
    if n == 0 {
        1
    } else {
        10 * pow10((n - 1) as nat)
    }
}

/// Digits write less than ten to the power of their number.
pub proof fn lemma_digits_bound(s: Seq<u8>)
    requires
        all_digits(s),
    ensures
        digits_value(s) < pow10(s.len()),
    decreases s.len(),
{
    if s.len() > 0 {
        let front = s.drop_last();
        assert forall|i: int| 0 <= i < front.len() implies is_digit(#[trigger] front[i]) by {
            assert(front[i] == s[i]);
        }
        lemma_digits_bound(front);
        assert(is_digit(s[s.len() - 1]));
    }
}

/// Up to four digits write less than ten thousand, up to two less than a
/// hundred.
pub proof fn lemma_few_digits(s: Seq<u8>)
    requires
        all_digits(s),
        s.len() <= 4,
    ensures
        digits_value(s) < 10_000,
        s.len() <= 2 ==> digits_value(s) < 100,
{
    lemma_digits_bound(s);
    assert(pow10(0) == 1);
    assert(pow10(1) == 10);
    assert(pow10(2) == 100);
    assert(pow10(3) == 1_000);
    assert(pow10(4) == 10_000);
}

/// Reads the day that a field writes.
pub fn parse_date(s: &Vec<u8>) -> (r: Option<Date>)
    ensures
        r == date_of(s@),
{
    if s.len() != 8 {
        return None;
    }
    match (parse_uint_in(s, 0, 4), parse_uint_in(s, 4, 6), parse_uint_in(s, 6, 8)) {
        (Some(y), Some(m), Some(d)) => {
            proof {
                lemma_few_digits(s@.subrange(0, 4));
                lemma_few_digits(s@.subrange(4, 6));
                lemma_few_digits(s@.subrange(6, 8));
            }
            Some(Date { year: y as i32, month: m as u32, day: d as u32 })
        },
        _ => None,
    }
}

/// Decides whether the bytes from `from` to before `to` are digits.
pub fn digits_only(s: &Vec<u8>, from: usize, to: usize) -> (r: bool)
    requires
        from <= to <= s@.len(),
    ensures
        r == all_digits(s@.subrange(from as int, to as int)),
{
    let ghost part = s@.subrange(from as int, to as int);
    let mut i: usize = from;
    while i < to
        invariant
            from <= i <= to,
            to <= s@.len(),
            part == s@.subrange(from as int, to as int),
            forall|j: int| 0 <= j < i - from ==> is_digit(#[trigger] part[j]),
        decreases to - i,
    {
        if s[i] < 48 || s[i] > 57 {
            assert(!is_digit(part[i - from]));
            return false;
        }
        i += 1;
    }
    true
}

/// The first powers of ten.
pub proof fn lemma_pow10_values()
    ensures
        pow10(0) == 1,
        pow10(1) == 10,
        pow10(2) == 100,
        pow10(3) == 1_000,
        pow10(4) == 10_000,
        pow10(5) == 100_000,
        pow10(6) == 1_000_000,
        pow10(7) == 10_000_000,
        pow10(8) == 100_000_000,
        pow10(9) == 1_000_000_000,
{
    assert(pow10(0) == 1);
    assert(pow10(1) == 10);
    assert(pow10(2) == 100);
    assert(pow10(3) == 1_000);
    assert(pow10(4) == 10_000);
    assert(pow10(5) == 100_000);
    assert(pow10(6) == 1_000_000);
    assert(pow10(7) == 10_000_000);
    assert(pow10(8) == 100_000_000);
    assert(pow10(9) == 1_000_000_000);
}

/// Computes [`pow10`] up to the ninth power.
pub fn ten_to(n: usize) -> (r: u64)
    requires
        n <= 9,
    ensures
        r == pow10(n as nat),
        r <= 1_000_000_000,
{
    proof {
        lemma_pow10_values();
    }
    match n {
        0 => 1,
        1 => 10,
        2 => 100,
        3 => 1_000,
        4 => 10_000,
        5 => 100_000,
        6 => 1_000_000,
        7 => 10_000_000,
        8 => 100_000_000,
        _ => 1_000_000_000,
    }
}

/// Where the sign of an angle ends: after a leading minus or plus.
pub open spec fn sign_len(s: Seq<u8>) -> int {
    if s.len() > 0 && (s[0] == 45 || s[0] == 43) {
        1
    } else {
        0
    }
}

/// The digits after the point of which the value takes account: the first
/// nine.
pub open spec fn kept_of(frac: Seq<u8>) -> Seq<u8> {
    if frac.len() > 9 {
        frac.take(9)
    } else {
        frac
    }
}

/// The nanodegrees that the digits before and after the point write: one
/// to three digits before it and any number after it, of which the first
/// nine count. More than 180 degrees have no value.
pub open spec fn nano_of(whole: Seq<u8>, frac: Seq<u8>) -> Option<u64> {
    let kept = kept_of(frac);
    let nano = digits_value(whole) * 1_000_000_000 + digits_value(kept) * pow10(
        (9 - kept.len()) as nat,
    );
    if 1 <= whole.len() <= 3 && all_digits(whole) && all_digits(frac) && nano <= 180_000_000_000 {
        Some(nano as u64)
    } else {
        None
    }
}

/// The angle that a field writes in degrees, as whole nanodegrees: a sign
/// or none, then digits, a point and digits as [`nano_of`] takes them.
pub open spec fn degrees_of(s: Seq<u8>) -> Option<i64> {
    let body = s.skip(sign_len(s));
    let dot = match body.index_of_first(46u8) {
        Some(p) => p,
        None => body.len() as int,
    };
    let frac = if dot < body.len() {
        body.skip(dot + 1)
    } else {
        Seq::empty()
    };
    match nano_of(body.take(dot), frac) {
        Some(nano) => Some(
            if s[0] == 45 {
                (-nano) as i64
            } else {
                nano as i64
            },
        ),
        None => None,
    }
}

/// Powers of ten grow with the exponent.
pub proof fn lemma_pow10_grows(a: nat, b: nat)
    requires
        a <= b,
    ensures
        pow10(a) <= pow10(b),
        pow10(a) >= 1,
    decreases b,
{
    if a < b {
        lemma_pow10_grows(a, (b - 1) as nat);
    } else if a > 0 {
        lemma_pow10_grows((a - 1) as nat, (a - 1) as nat);
    }
}

/// The digits that count are digits where all are, and write less than
/// ten to the ninth power.
pub proof fn lemma_kept(frac: Seq<u8>)
    requires
        all_digits(frac),
    ensures
        all_digits(kept_of(frac)),
        kept_of(frac).len() <= 9,
        digits_value(kept_of(frac)) < pow10(kept_of(frac).len()),
        pow10(kept_of(frac).len()) <= 1_000_000_000,
{
    let kept = kept_of(frac);
    assert forall|j: int| 0 <= j < kept.len() implies is_digit(#[trigger] kept[j]) by {
        assert(kept[j] == frac[j]);
    }
    lemma_digits_bound(kept);
    lemma_pow10_grows(kept.len(), 9);
    lemma_pow10_values();
}

/// Reads [`nano_of`] of the digits from `from` to before `dot` and the
/// digits from `frac_from` to before `to`.
#[verifier::rlimit(50)]
pub fn parse_nano(s: &Vec<u8>, from: usize, dot: usize, frac_from: usize, to: usize) -> (r: Option<
    u64,
>)
    requires
        from <= dot <= frac_from <= to <= s@.len(),
    ensures
        r == nano_of(
            s@.subrange(from as int, dot as int),
            s@.subrange(frac_from as int, to as int),
        ),
{
    let ghost whole = s@.subrange(from as int, dot as int);
    let ghost frac = s@.subrange(frac_from as int, to as int);
    let ghost kept = kept_of(frac);
    if dot - from < 1 || dot - from > 3 {
        return None;
    }
    if !digits_only(s, from, dot) || !digits_only(s, frac_from, to) {
        return None;
    }
    let kept_len: usize = if to - frac_from > 9 {
        9
    } else {
        to - frac_from
    };
    proof {
        assert(s@.subrange(frac_from as int, frac_from + kept_len) =~= kept);
        lemma_digits_bound(whole);
        lemma_pow10_grows(whole.len(), 3);
        lemma_pow10_values();
        lemma_kept(frac);
    }
    let w = match parse_uint_in(s, from, dot) {
        Some(w) => w,
        None => {
            return None;
        },
    };
    let k: u64 = if kept_len == 0 {
        assert(digits_value(kept) == 0);
        0
    } else {
        match parse_uint_in(s, frac_from, frac_from + kept_len) {
            Some(k) => k,
            None => {
                return None;
            },
        }
    };
    let scale = ten_to(9 - kept_len);
    assert(k * scale <= 1_000_000_000 * 1_000_000_000) by (nonlinear_arith)
        requires
            k < 1_000_000_000,
            scale <= 1_000_000_000,
    ;
    let nano: u64 = w * 1_000_000_000 + k * scale;
    if nano > 180_000_000_000 {
        return None;
    }
    Some(nano)
}

/// Reads the angle that a field writes.
#[verifier::rlimit(50)]
pub fn parse_degrees(s: &Vec<u8>) -> (r: Option<i64>)
    ensures
        r == degrees_of(s@),
{
    let n = s.len();
    let start: usize = if n > 0 && (s[0] == 45 || s[0] == 43) {
        1
    } else {
        0
    };
    let ghost body = s@.skip(start as int);
    let mut p: usize = start;
    while p < n && s[p] != 46
        invariant
            start <= p <= n,
            n == s@.len(),
            body == s@.skip(start as int),
            forall|j: int| 0 <= j < p - start ==> #[trigger] body[j] != 46,
        decreases n - p,
    {
        p += 1;
    }
    let ghost dot = p - start;
    let frac_from: usize = if p < n {
        p + 1
    } else {
        n
    };
    proof {
        body.index_of_first_ensures(46u8);
        if p < n {
            assert(body[dot] == 46);
            assert(body.contains(46u8));
            assert(s@.subrange(frac_from as int, n as int) =~= body.skip(dot + 1));
        } else {
            assert(!body.contains(46u8));
            assert(s@.subrange(frac_from as int, n as int) =~= Seq::<u8>::empty());
        }
        assert(s@.subrange(start as int, p as int) =~= body.take(dot));
    }
    match parse_nano(s, start, p, frac_from, n) {
        Some(nano) => {
            if s[0] == 45 {
                Some(-(nano as i64))
            } else {
                Some(nano as i64)
            }
        },
        None => None,
    }
}

/// The 64-bit number that stands for an identifier: its bytes hashed one
/// after the other, each folded in by exclusive or and multiplied by a
/// prime, all within 64 bits.
pub open spec fn stable_id_of(s: Seq<u8>) -> u64
    decreases s.len(),
{
    if s.len() == 0 {
        0xcbf2_9ce4_8422_2325
    } else {
        (((stable_id_of(s.drop_last()) ^ (s.last() as u64)) * 0x0000_0100_0000_01b3)
            % 0x1_0000_0000_0000_0000) as u64
    }
}

/// Computes [`stable_id_of`].
pub fn stable_id(s: &Vec<u8>) -> (r: u64)
    ensures
        r == stable_id_of(s@),
{
    stable_id_bytes(s.as_slice())
}

/// Computes [`stable_id_of`] of a slice of bytes.
pub fn stable_id_bytes(s: &[u8]) -> (r: u64)
    ensures
        r == stable_id_of(s@),
{
    let mut h: u64 = 0xcbf2_9ce4_8422_2325;
    let mut i: usize = 0;
    assert(s@.take(0) =~= Seq::<u8>::empty());
    while i < s.len()
        invariant
            i <= s@.len(),
            h == stable_id_of(s@.take(i as int)),
        decreases s@.len() - i,
    {
        proof {
            assert(s@.take(i + 1).drop_last() =~= s@.take(i as int));
            assert(s@.take(i + 1).last() == s@[i as int]);
        }
        h = (h ^ (s[i] as u64)).wrapping_mul(0x0000_0100_0000_01b3);
        i += 1;
    }
    assert(s@.take(s@.len() as int) =~= s@);
    h
}

} // verus!
