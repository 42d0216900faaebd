//! Civil dates (UTC) from day numbers, for the dates in export file names.
use vstd::prelude::*;
use crate::text::{decimal, push_char, push_decimal};

verus! {

/// The last day number a `u64` count of seconds reaches.
pub const MAX_DAY: i64 = 213_503_982_334_601;

/// The civil date `(year, month, day)` of day number `days` (0 = 1970-01-01), by the
/// era-of-400-years method.
pub open spec fn civil_from_days(days: int) -> (int, int, int) {
    let z = days + 719_468;
    let era = z / 146_097;
    let doe = z - era * 146_097;
    let yoe = (doe - doe / 1_460 + doe / 36_524 - doe / 146_096) / 365;
    let doy = doe - (365 * yoe + yoe / 4 - yoe / 100);
    let mp = (5 * doy + 2) / 153;
    let d = doy - (153 * mp + 2) / 5 + 1;
    let m = if mp < 10 { mp + 3 } else { mp - 9 };
    let y = yoe + era * 400 + if m <= 2 { 1int } else { 0int };
    (y, m, d)
}

proof fn lemma_civil_ranges(days: int)
    requires
        0 <= days <= MAX_DAY,
    ensures
        ({
            let (y, m, d) = civil_from_days(days);
            &&& 0 <= y <= 600_000_000_000
            &&& 1 <= m <= 12
            &&& 1 <= d <= 31
        }),
{
    let z = days + 719_468;
    let era = z / 146_097;
    let doe = z - era * 146_097;
    assert(0 <= era <= 1_461_500_000 && 0 <= doe < 146_097) by (nonlinear_arith)
        requires
            era == z / 146_097,
            doe == z - era * 146_097,
            719_468 <= z <= MAX_DAY + 719_468,
    ;
    let yoe = (doe - doe / 1_460 + doe / 36_524 - doe / 146_096) / 365;
    assert(0 <= yoe <= 399) by (nonlinear_arith)
        requires
            0 <= doe < 146_097,
            yoe == (doe - doe / 1_460 + doe / 36_524 - doe / 146_096) / 365,
    ;
    let doy = doe - (365 * yoe + yoe / 4 - yoe / 100);
    assert(0 <= doy <= 365) by (nonlinear_arith)
        requires
            0 <= doe < 146_097,
            yoe == (doe - doe / 1_460 + doe / 36_524 - doe / 146_096) / 365,
            doy == doe - (365 * yoe + yoe / 4 - yoe / 100),
    ;
    let mp = (5 * doy + 2) / 153;
    let d = doy - (153 * mp + 2) / 5 + 1;
    assert(0 <= mp <= 11 && 1 <= d <= 31) by (nonlinear_arith)
        requires
            0 <= doy <= 365,
            mp == (5 * doy + 2) / 153,
            d == doy - (153 * mp + 2) / 5 + 1,
    ;
}

/// The civil date of day number `days` (0 = 1970-01-01).
pub fn civil_date(days: i64) -> (r: (i64, u32, u32))
    requires
        0 <= days <= MAX_DAY,
    ensures
        (r.0 as int, r.1 as int, r.2 as int) == civil_from_days(days as int),
        1 <= r.1 <= 12,
        1 <= r.2 <= 31,
{
    proof {
        lemma_civil_ranges(days as int);
    }
    let z = days + 719_468;
    let era = z / 146_097;
    assert(0 <= era <= 1_461_500_000) by (nonlinear_arith)
        requires
            era == z / 146_097,
            719_468 <= z <= MAX_DAY + 719_468,
    ;
    let doe = z - era * 146_097;
    assert(0 <= doe < 146_097) by (nonlinear_arith)
        requires
            era == z / 146_097,
            doe == z - era * 146_097,
            719_468 <= z,
    ;
    let yoe = (doe - doe / 1_460 + doe / 36_524 - doe / 146_096) / 365;
    assert(0 <= yoe <= 399) by (nonlinear_arith)
        requires
            0 <= doe < 146_097,
            yoe == (doe - doe / 1_460 + doe / 36_524 - doe / 146_096) / 365,
    ;
    let doy = doe - (365 * yoe + yoe / 4 - yoe / 100);
    let mp = (5 * doy + 2) / 153;
    let d = doy - (153 * mp + 2) / 5 + 1;
    let m = if mp < 10 { mp + 3 } else { mp - 9 };
    let y = yoe + era * 400 + if m <= 2 { 1 } else { 0 };
    (y, m as u32, d as u32)
}

/// `n` in decimal, with leading zeros up to `width` digits.
pub open spec fn padded(n: nat, width: nat) -> Seq<char> {
    let digits = decimal(n);
    if digits.len() < width {
        Seq::new((width - digits.len()) as nat, |i: int| '0') + digits
    } else {
        digits
    }
}

proof fn lemma_decimal_len(n: nat)
    ensures
        decimal(n).len() >= 1,
        n < 10 ==> decimal(n).len() == 1,
        10 <= n < 100 ==> decimal(n).len() == 2,
        100 <= n < 1000 ==> decimal(n).len() == 3,
        n >= 1000 ==> decimal(n).len() >= 4,
    decreases n,
{
    if n >= 10 {
        lemma_decimal_len(n / 10);
    }
}

fn push_padded(out: &mut String, n: u64, width: u64)
    requires
        width <= 4,
    ensures
        final(out)@ == old(out)@ + padded(n as nat, width as nat),
{
    proof {
        lemma_decimal_len(n as nat);
    }
    let len: u64 = if n < 10 {
        1
    } else if n < 100 {
        2
    } else if n < 1000 {
        3
    } else {
        4
    };
    let ghost start = out@;
    let mut k: u64 = len;
    while k < width
        invariant
            len <= k <= width || (width < len && k == len),
            out@ == start + Seq::new((k - len) as nat, |i: int| '0'),
        decreases width - k,
    {
        push_char(out, '0');
        assert(out@ =~= start + Seq::new((k + 1 - len) as nat, |i: int| '0'));
        k += 1;
    }
    push_decimal(out, n);
    assert(out@ =~= start + padded(n as nat, width as nat));
}

/// `YYYY-MM-DD` of the day `secs` seconds after 1970-01-01 (UTC).
pub open spec fn spec_iso_date(secs: nat) -> Seq<char> {
    let (y, m, d) = civil_from_days((secs / 86_400) as int);
    padded(y as nat, 4) + seq!['-'] + padded(m as nat, 2) + seq!['-'] + padded(d as nat, 2)
}

/// Today's date as `YYYY-MM-DD`, given the seconds since 1970-01-01 (UTC).
pub fn today(secs: u64) -> (r: String)
    ensures
        r@ == spec_iso_date(secs as nat),
{
    let days = (secs / 86_400) as i64;
    let (y, m, d) = civil_date(days);
    proof {
        lemma_civil_ranges(days as int);
    }
    let mut out = String::new();
    push_padded(&mut out, y as u64, 4);
    push_char(&mut out, '-');
    push_padded(&mut out, m as u64, 2);
    push_char(&mut out, '-');
    push_padded(&mut out, d as u64, 2);
    assert(out@ =~= spec_iso_date(secs as nat));
    out
}

} // verus!
