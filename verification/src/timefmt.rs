//! The filename-encoded timestamp grammar: archives are named by calendar
//! date (`YYYYMMDD`), individual snapshot files by full timestamp
//! (`YYYYMMDDHHMMSS`).  These names are the sole source of chronological
//! truth during import, so parsing is a strict validation gate: malformed
//! names are rejected, never recovered from.

use vstd::prelude::*;

verus! {

/// `c` is a decimal digit.
pub open spec fn is_digit(c: char) -> bool {
    '0' as u32 <= c as u32 && c as u32 <= '9' as u32
}

/// The numeric value of a digit character.
pub open spec fn digit_val(c: char) -> int {
    c as u32 - '0' as u32
}

/// Every character of `s` is a decimal digit.
pub open spec fn all_digits(s: Seq<char>) -> bool {
    forall|i: int| 0 <= i < s.len() ==> is_digit(#[trigger] s[i])
}

/// The number a digit string denotes, most significant digit first.
pub open spec fn digits_val(s: Seq<char>) -> int
    decreases s.len(),
{
    if s.len() == 0 {
        0
    } else {
        digits_val(s.drop_last()) * 10 + digit_val(s.last())
    }
}

/// Ten to the `n`th.
pub open spec fn pow10(n: nat) -> int
    decreases n,
{
    if n == 0 {
        1
    } else {
        10 * pow10((n - 1) as nat)
    }
}

/// A digit string's value is non-negative and below ten to its length.
pub proof fn lemma_digits_val_bound(s: Seq<char>)
    requires
        all_digits(s),
    ensures
        0 <= digits_val(s) < pow10(s.len()),
    decreases s.len(),
{
    if s.len() > 0 {
        assert(all_digits(s.drop_last())) by {
            assert(forall|i: int|
                0 <= i < s.len() - 1 ==> s.drop_last()[i] == #[trigger] s[i]);
        }
        lemma_digits_val_bound(s.drop_last());
        assert(0 <= digit_val(s.last()) <= 9);
    }
}

/// Fourteen digits fit comfortably in 64 bits.
pub proof fn lemma_pow10_14()
    ensures
        pow10(14) == 100000000000000,
{
    reveal_with_fuel(pow10, 15);
}

/// Splitting a digit string splits its value around a power of ten.
pub proof fn lemma_digits_split(s: Seq<char>, k: int)
    requires
        0 <= k <= s.len(),
    ensures
        digits_val(s) == digits_val(s.take(k)) * pow10((s.len() - k) as nat) + digits_val(
            s.skip(k),
        ),
    decreases s.len() - k,
{
    if k == s.len() {
        assert(s.take(k) =~= s);
        assert(s.skip(k) =~= Seq::<char>::empty());
    } else {
        let d = s.drop_last();
        lemma_digits_split(d, k);
        assert(d.take(k) =~= s.take(k));
        assert(s.skip(k).drop_last() =~= d.skip(k));
        assert(s.skip(k).last() == s.last());
        assert(digits_val(s.skip(k)) == digits_val(d.skip(k)) * 10 + digit_val(s.last()));
        let a = digits_val(s.take(k));
        let p = pow10((d.len() - k) as nat);
        assert(pow10((s.len() - k) as nat) == 10 * p);
        assert((a * p + digits_val(d.skip(k))) * 10 + digit_val(s.last()) == a * (10 * p) + (
        digits_val(d.skip(k)) * 10 + digit_val(s.last()))) by (nonlinear_arith);
    }
}

/// Parse the characters `from..to` of `s` as a decimal number.  `None`
/// exactly when some character in the range is not a digit.
pub fn parse_digits(s: &str, from: usize, to: usize) -> (r: Option<u64>)
    requires
        from <= to && to <= s@.len(),
        to - from <= 14,
    ensures
        r matches Some(v) ==> all_digits(s@.subrange(from as int, to as int)) && v == digits_val(
            s@.subrange(from as int, to as int),
        ),
        r is None ==> !all_digits(s@.subrange(from as int, to as int)),
{
    let ghost sub = s@.subrange(from as int, to as int);
    let mut acc: u64 = 0;
    let mut i: usize = from;
    proof {
        assert(sub.take(0) =~= Seq::<char>::empty());
    }
    while i < to
        invariant
            from <= i <= to,
            to <= s@.len(),
            to - from <= 14,
            sub == s@.subrange(from as int, to as int),
            all_digits(sub.take(i - from)),
            acc == digits_val(sub.take(i - from)),
            acc < pow10((i - from) as nat),
        decreases to - i,
    {
        let c = s.get_char(i);
        let cu = c as u32;
        if cu < '0' as u32 || cu > '9' as u32 {
            proof {
                assert(sub[i - from] == c);
                assert(!is_digit(sub[i - from]));
            }
            return None;
        }
        let d = (cu - '0' as u32) as u64;
        proof {
            lemma_pow10_14();
            assert(pow10(((i - from) + 1) as nat) == 10 * pow10((i - from) as nat));
            assert(pow10((i - from) as nat) <= pow10(14)) by {
                lemma_pow10_monotone((i - from) as nat, 14);
            }
            assert(acc * 10 + d < pow10(((i - from) + 1) as nat));
            assert(sub.take(i - from + 1).drop_last() =~= sub.take(i - from));
            assert(sub.take(i - from + 1).last() == sub[i - from]);
            assert(sub[i - from] == c);
        }
        acc = acc * 10 + d;
        i += 1;
    }
    proof {
        assert(sub.take(to - from) =~= sub);
    }
    Some(acc)
}

/// Powers of ten grow with the exponent.
pub proof fn lemma_pow10_monotone(a: nat, b: nat)
    requires
        a <= b,
    ensures
        pow10(a) <= pow10(b),
        pow10(a) >= 1,
    decreases b,
{
    if a < b {
        lemma_pow10_monotone(a, (b - 1) as nat);
    } else if b > 0 {
        lemma_pow10_monotone((a - 1) as nat, (b - 1) as nat);
    }
}

/// Leap years of the proleptic Gregorian calendar.
pub open spec fn is_leap_year(y: int) -> bool {
    y % 4 == 0 && (y % 100 != 0 || y % 400 == 0)
}

/// Days in a month.
pub open spec fn days_in_month(y: int, m: int) -> int {
    if m == 2 {
        if is_leap_year(y) {
            29
        } else {
            28
        }
    } else if m == 4 || m == 6 || m == 9 || m == 11 {
        30
    } else {
        31
    }
}

/// A real calendar date.
pub open spec fn valid_date(y: int, m: int, d: int) -> bool {
    1 <= m <= 12 && 1 <= d <= days_in_month(y, m)
}

/// A real time of day.
pub open spec fn valid_time(h: int, mi: int, s: int) -> bool {
    0 <= h < 24 && 0 <= mi < 60 && 0 <= s < 60
}

/// An eight-digit date name `YYYYMMDD` denoting a real date.
pub open spec fn valid_date8(s: Seq<char>) -> bool {
    &&& s.len() == 8
    &&& all_digits(s)
    &&& valid_date(
        digits_val(s.subrange(0, 4)),
        digits_val(s.subrange(4, 6)),
        digits_val(s.subrange(6, 8)),
    )
}

/// A fourteen-digit timestamp name `YYYYMMDDHHMMSS` denoting a real
/// date and time.
pub open spec fn valid_timestamp14(s: Seq<char>) -> bool {
    &&& s.len() == 14
    &&& all_digits(s)
    &&& valid_date(
        digits_val(s.subrange(0, 4)),
        digits_val(s.subrange(4, 6)),
        digits_val(s.subrange(6, 8)),
    )
    &&& valid_time(
        digits_val(s.subrange(8, 10)),
        digits_val(s.subrange(10, 12)),
        digits_val(s.subrange(12, 14)),
    )
}

/// Days in a month, executable form.
fn days_in_month_x(y: u64, m: u64) -> (r: u64)
    ensures
        r == days_in_month(y as int, m as int),
{
    if m == 2 {
        if y % 4 == 0 && (y % 100 != 0 || y % 400 == 0) {
            29
        } else {
            28
        }
    } else if m == 4 || m == 6 || m == 9 || m == 11 {
        30
    } else {
        31
    }
}

/// Parse an eight-character date name.  `Some` exactly when the name is a
/// real date, giving its value as one number (`y * 10000 + m * 100 + d`).
pub fn parse_date8(s: &str) -> (r: Option<u64>)
    ensures
        r matches Some(v) ==> valid_date8(s@) && v == digits_val(s@),
        r is None ==> !valid_date8(s@),
{
    if s.unicode_len() != 8 {
        return None;
    }
    let y = match parse_digits(s, 0, 4) {
        Some(v) => v,
        None => {
            proof {
                lemma_not_all_digits(s@, 0, 4);
            }
            return None;
        },
    };
    let m = match parse_digits(s, 4, 6) {
        Some(v) => v,
        None => {
            proof {
                lemma_not_all_digits(s@, 4, 6);
            }
            return None;
        },
    };
    let d = match parse_digits(s, 6, 8) {
        Some(v) => v,
        None => {
            proof {
                lemma_not_all_digits(s@, 6, 8);
            }
            return None;
        },
    };
    if !(1 <= m && m <= 12 && 1 <= d && d <= days_in_month_x(y, m)) {
        return None;
    }
    let whole = match parse_digits(s, 0, 8) {
        Some(v) => v,
        None => {
            proof {
                lemma_not_all_digits(s@, 0, 8);
            }
            return None;
        },
    };
    proof {
        assert(s@.subrange(0, 8) =~= s@);
        assert(all_digits(s@));
    }
    Some(whole)
}

/// A subrange that is not all digits refutes all-digits for the whole.
proof fn lemma_not_all_digits(s: Seq<char>, from: int, to: int)
    requires
        0 <= from <= to <= s.len(),
        !all_digits(s.subrange(from, to)),
    ensures
        !all_digits(s),
{
    if all_digits(s) {
        assert forall|i: int| 0 <= i < to - from implies is_digit(#[trigger] s.subrange(from, to)[i]) by {
            assert(s.subrange(from, to)[i] == s[from + i]);
        }
    }
}

/// Parse a fourteen-character timestamp name.  `Some` exactly when the
/// name is a real date and time, giving its value as one number.
pub fn parse_timestamp14(s: &str) -> (r: Option<u64>)
    ensures
        r matches Some(v) ==> valid_timestamp14(s@) && v == digits_val(s@),
        r is None ==> !valid_timestamp14(s@),
{
    if s.unicode_len() != 14 {
        return None;
    }
    let y = match parse_digits(s, 0, 4) {
        Some(v) => v,
        None => {
            proof {
                lemma_not_all_digits(s@, 0, 4);
            }
            return None;
        },
    };
    let mo = match parse_digits(s, 4, 6) {
        Some(v) => v,
        None => {
            proof {
                lemma_not_all_digits(s@, 4, 6);
            }
            return None;
        },
    };
    let d = match parse_digits(s, 6, 8) {
        Some(v) => v,
        None => {
            proof {
                lemma_not_all_digits(s@, 6, 8);
            }
            return None;
        },
    };
    let h = match parse_digits(s, 8, 10) {
        Some(v) => v,
        None => {
            proof {
                lemma_not_all_digits(s@, 8, 10);
            }
            return None;
        },
    };
    let mi = match parse_digits(s, 10, 12) {
        Some(v) => v,
        None => {
            proof {
                lemma_not_all_digits(s@, 10, 12);
            }
            return None;
        },
    };
    let sec = match parse_digits(s, 12, 14) {
        Some(v) => v,
        None => {
            proof {
                lemma_not_all_digits(s@, 12, 14);
            }
            return None;
        },
    };
    if !(1 <= mo && mo <= 12 && 1 <= d && d <= days_in_month_x(y, mo)) {
        return None;
    }
    if !(h < 24 && mi < 60 && sec < 60) {
        return None;
    }
    let whole = match parse_digits(s, 0, 14) {
        Some(v) => v,
        None => {
            proof {
                lemma_not_all_digits(s@, 0, 14);
            }
            return None;
        },
    };
    proof {
        assert(s@.subrange(0, 14) =~= s@);
        assert(all_digits(s@));
    }
    Some(whole)
}

/// A timestamp value decomposes around its day: the value of the whole
/// fourteen digits is the value of the first eight (the day), shifted by
/// the six time digits, plus the time of day.
pub proof fn lemma_timestamp_day(s: Seq<char>)
    requires
        valid_timestamp14(s),
    ensures
        digits_val(s) == digits_val(s.subrange(0, 8)) * 1000000 + digits_val(s.subrange(8, 14)),
        0 <= digits_val(s.subrange(8, 14)) < 1000000,
        digits_val(s) / 1000000 == digits_val(s.subrange(0, 8)),
{
    lemma_digits_split(s, 8);
    assert(pow10(6) == 1000000) by {
        reveal_with_fuel(pow10, 7);
    }
    assert(s.skip(8) =~= s.subrange(8, 14));
    assert(s.take(8) =~= s.subrange(0, 8));
    assert(all_digits(s.skip(8))) by {
        assert(forall|i: int| 0 <= i < 6 ==> s.skip(8)[i] == #[trigger] s[i + 8]);
    }
    lemma_digits_val_bound(s.skip(8));
    assert(all_digits(s.take(8))) by {
        assert(forall|i: int| 0 <= i < 8 ==> s.take(8)[i] == #[trigger] s[i]);
    }
    lemma_digits_val_bound(s.take(8));
    let a = digits_val(s.take(8));
    let b = digits_val(s.skip(8));
    assert(digits_val(s) == a * 1000000 + b);
    assert((a * 1000000 + b) / 1000000 == a) by (nonlinear_arith)
        requires
            0 <= b < 1000000,
            a >= 0,
    ;
}

} // verus!
