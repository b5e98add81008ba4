//! Sort keys for the `received_at` text of cached messages: RFC 2822 dates
//! (through `mailparse::dateparse`) and RFC 3339 timestamps, both as seconds
//! since the UNIX epoch.

use vstd::prelude::*;
use vstd::utf8::encode_utf8;

verus! {

broadcast use vstd::string::group_string_axioms;

/// What `mailparse::dateparse` returns for the date text (`None` for a parse
/// error).
pub uninterp spec fn rfc2822_timestamp(date: Seq<char>) -> Option<i64>;

/// Calls `mailparse::dateparse`, which reads an RFC 2822 date such as
/// `Fri, 29 May 2026 09:30:00 +0800` as seconds since the epoch. The contract
/// names the result; the parser is not restated.
#[verifier::external_body]
fn dateparse(value: &str) -> (r: Option<i64>)
    ensures
        r == rfc2822_timestamp(value@),
{
    mailparse::dateparse(value).ok()
}

/// Rust's integer division, which rounds toward zero (for `b > 0`).
pub open spec fn trunc_div(a: int, b: int) -> int {
    if a >= 0 {
        a / b
    } else {
        -((-a) / b)
    }
}

/// Days from 1970-01-01 to the given proleptic Gregorian date (Howard
/// Hinnant's `days_from_civil`, with Rust's rounding toward zero).
pub open spec fn spec_days_from_civil(year: int, month: int, day: int) -> int {
    let y = if month <= 2 {
        year - 1
    } else {
        year
    };
    let era = trunc_div(
        if y >= 0 {
            y
        } else {
            y - 399
        },
        400,
    );
    let year_of_era = y - era * 400;
    let month_prime = month + if month > 2 {
        -3int
    } else {
        9int
    };
    let day_of_year = trunc_div(153 * month_prime + 2, 5) + day - 1;
    let day_of_era = year_of_era * 365 + trunc_div(year_of_era, 4) - trunc_div(year_of_era, 100)
        + day_of_year;
    era * 146_097 + day_of_era - 719_468
}

/// The day count is zero at the epoch, grows by one from each day to the
/// next within a month, and from the last day of a year to the first day of
/// the next.
pub proof fn civil_days_are_consecutive(year: int, month: int, day: int)
    ensures
        spec_days_from_civil(1970, 1, 1) == 0,
        spec_days_from_civil(year, month, day + 1) == spec_days_from_civil(year, month, day) + 1,
        spec_days_from_civil(year + 1, 1, 1) == spec_days_from_civil(year, 12, 31) + 1,
{
    assert(trunc_div(1532, 5) == 306);
    assert(trunc_div(1379, 5) == 275);
    assert(trunc_div(1969, 400) == 4);
    assert(trunc_div(369, 4) == 92);
    assert(trunc_div(369, 100) == 3);
}

/// Bound on the date fields that the RFC 3339 reader can produce.
pub open spec fn field_in_range(v: int) -> bool {
    -10_000 <= v <= 10_000
}

pub open spec fn in_i64(v: int) -> bool {
    i64::MIN <= v <= i64::MAX
}

/// The date fields for which every step of the day count stays within
/// `i64`, so that it runs without overflow.
pub open spec fn days_from_civil_fits(year: int, month: int, day: int) -> bool {
    let y = if month <= 2 {
        year - 1
    } else {
        year
    };
    let shifted = if y >= 0 {
        y
    } else {
        y - 399
    };
    let era = trunc_div(shifted, 400);
    let year_of_era = y - era * 400;
    let month_prime = month + if month > 2 {
        -3int
    } else {
        9int
    };
    let scaled = 153 * month_prime;
    let day_of_year = trunc_div(scaled + 2, 5) + day - 1;
    let day_of_era = year_of_era * 365 + trunc_div(year_of_era, 4) - trunc_div(year_of_era, 100)
        + day_of_year;
    &&& in_i64(y)
    &&& in_i64(shifted)
    &&& in_i64(month_prime)
    &&& in_i64(scaled)
    &&& in_i64(scaled + 2)
    &&& in_i64(trunc_div(scaled + 2, 5) + day)
    &&& in_i64(day_of_year)
    &&& in_i64(day_of_era)
    &&& in_i64(era * 146_097)
    &&& in_i64(era * 146_097 + day_of_era)
    &&& in_i64(era * 146_097 + day_of_era - 719_468)
}

pub fn days_from_civil(year: i64, month: i64, day: i64) -> (r: i64)
    requires
        days_from_civil_fits(year as int, month as int, day as int),
    ensures
        r == spec_days_from_civil(year as int, month as int, day as int),
        field_in_range(year as int) && field_in_range(month as int) && field_in_range(day as int)
            ==> -10_000_000 <= r <= 10_000_000,
{
    let year = year - if month <= 2 {
        1
    } else {
        0
    };
    let era = if year >= 0 {
        year
    } else {
        year - 399
    } / 400;
    let year_of_era = year - era * 400;
    assert(0 <= year_of_era < 400);
    let month_prime = month + if month > 2 {
        -3
    } else {
        9
    };
    let day_of_year = (153 * month_prime + 2) / 5 + day - 1;
    let day_of_era = year_of_era * 365 + year_of_era / 4 - year_of_era / 100 + day_of_year;
    era * 146_097 + day_of_era - 719_468
}

// ---------------------------------------------------------------------------
// RFC 3339
// ---------------------------------------------------------------------------

pub open spec fn is_digit(b: u8) -> bool {
    0x30 <= b <= 0x39
}

pub open spec fn all_digits(b: Seq<u8>) -> bool {
    forall|i: int| 0 <= i < b.len() ==> is_digit(#[trigger] b[i])
}

/// The decimal value of a digit string.
pub open spec fn digits_value(b: Seq<u8>) -> int
    decreases b.len(),
{
    if b.len() == 0 {
        0
    } else {
        digits_value(b.drop_last()) * 10 + (b.last() - 0x30)
    }
}

/// `str::parse::<i64>` on the text of these bytes: an optional sign, then at
/// least one decimal digit, within the range of `i64`.
pub open spec fn spec_parse_i64(b: Seq<u8>) -> Option<int> {
    let (sign, digits) = if b.len() > 0 && (b[0] == 0x2B || b[0] == 0x2D) {
        (if b[0] == 0x2D {
            -1int
        } else {
            1int
        }, b.skip(1))
    } else {
        (1int, b)
    };
    let v = sign * digits_value(digits);
    if digits.len() > 0 && all_digits(digits) && i64::MIN <= v <= i64::MAX {
        Some(v)
    } else {
        None
    }
}

/// The integer written in bytes `start..end`, or `None` (also when the range
/// runs past the end).
pub open spec fn field(b: Seq<u8>, start: int, end: int) -> Option<int> {
    if 0 <= start <= end <= b.len() {
        spec_parse_i64(b.subrange(start, end))
    } else {
        None
    }
}

pub open spec fn pow10(n: nat) -> int
    decreases n,
{
    if n == 0 {
        1
    } else {
        10 * pow10((n - 1) as nat)
    }
}

proof fn lemma_digits_value_nonneg(b: Seq<u8>)
    requires
        all_digits(b),
    ensures
        0 <= digits_value(b) < pow10(b.len()),
    decreases b.len(),
{
    if b.len() > 0 {
        lemma_digits_value_nonneg(b.drop_last());
        assert(pow10(b.len()) == 10 * pow10((b.len() - 1) as nat));
    }
}

/// A digit string is worth at least as much as any of its prefixes.
proof fn lemma_digits_value_prefix(b: Seq<u8>, k: int)
    requires
        all_digits(b),
        0 <= k <= b.len(),
    ensures
        digits_value(b.take(k)) <= digits_value(b),
    decreases b.len(),
{
    if k < b.len() {
        lemma_digits_value_nonneg(b.drop_last());
        assert(b.drop_last().take(k) =~= b.take(k));
        lemma_digits_value_prefix(b.drop_last(), k);
    } else {
        assert(b.take(k) =~= b);
    }
}

/// Reads the digits in bytes `from..end`: their value when they are all
/// digits and the value fits in a `u64`, else `None`.
fn parse_digits(b: &[u8], from: usize, end: usize) -> (r: Option<u64>)
    requires
        from <= end <= b.len(),
    ensures
        r matches Some(v) ==> all_digits(b@.subrange(from as int, end as int)) && v as int
            == digits_value(b@.subrange(from as int, end as int)),
        r is None ==> !all_digits(b@.subrange(from as int, end as int)) || digits_value(
            b@.subrange(from as int, end as int),
        ) > u64::MAX,
{
    let ghost full = b@.subrange(from as int, end as int);
    let mut i = from;
    let mut value: u64 = 0;
    while i < end
        invariant
            from <= i <= end <= b.len(),
            full == b@.subrange(from as int, end as int),
            all_digits(b@.subrange(from as int, i as int)),
            value as int == digits_value(b@.subrange(from as int, i as int)),
        decreases end - i,
    {
        let d = b[i];
        let ghost next = b@.subrange(from as int, i + 1);
        assert(next.drop_last() =~= b@.subrange(from as int, i as int));
        assert(full.take(i + 1 - from) =~= next);
        if d < 0x30 || d > 0x39 {
            assert(!is_digit(full[(i - from) as int]));
            return None;
        }
        assert forall|j: int| 0 <= j < next.len() implies is_digit(#[trigger] next[j]) by {
            if j < next.len() - 1 {
                assert(next[j] == b@.subrange(from as int, i as int)[j]);
            }
        }
        let digit = (d - 0x30) as u64;
        let grown = match value.checked_mul(10) {
            Some(t) => t.checked_add(digit),
            None => None,
        };
        match grown {
            Some(g) => {
                value = g;
            },
            None => {
                proof {
                    if all_digits(full) {
                        lemma_digits_value_prefix(full, i + 1 - from);
                    }
                }
                return None;
            },
        }
        i += 1;
    }
    Some(value)
}

proof fn lemma_pow10_small()
    ensures
        pow10(0) == 1,
        pow10(1) == 10,
        pow10(2) == 100,
        pow10(3) == 1000,
        pow10(4) == 10000,
{
    reveal_with_fuel(pow10, 5);
}

/// Reads the integer in bytes `start..end` as `str::parse::<i64>` reads
/// text: an optional sign, then decimal digits; `None` for anything else, for
/// a value outside `i64`, or for a range that is empty the wrong way round or
/// runs past the end. Fields of at most four bytes hold values within
/// `-9999..=9999`.
pub fn parse_i64(b: &[u8], start: usize, end: usize) -> (r: Option<i64>)
    ensures
        (match r {
            Some(v) => Some(v as int),
            None => None::<int>,
        }) == field(b@, start as int, end as int),
        r matches Some(v) ==> end - start <= 4 ==> field_in_range(v as int),
{
    if start > end || end > b.len() {
        return None;
    }
    let ghost s = b@.subrange(start as int, end as int);
    if start < end && (b[start] == 0x2B || b[start] == 0x2D) {
        assert(s[0] == b@[start as int]);
        assert(s.skip(1) =~= b@.subrange(start + 1, end as int));
        if start + 1 == end {
            return None;
        }
        match parse_digits(b, start + 1, end) {
            Some(v) => {
                proof {
                    lemma_digits_value_nonneg(s.skip(1));
                    lemma_pow10_small();
                }
                if b[start] == 0x2D {
                    if v > 0x8000_0000_0000_0000u64 {
                        assert(spec_parse_i64(s) is None);
                        None
                    } else if v == 0x8000_0000_0000_0000u64 {
                        assert(spec_parse_i64(s) == Some(-1 * (v as int)));
                        Some(i64::MIN)
                    } else {
                        assert(spec_parse_i64(s) == Some(-1 * (v as int)));
                        Some(-(v as i64))
                    }
                } else {
                    if v > 0x7FFF_FFFF_FFFF_FFFFu64 {
                        assert(spec_parse_i64(s) is None);
                        None
                    } else {
                        assert(spec_parse_i64(s) == Some(1 * (v as int)));
                        Some(v as i64)
                    }
                }
            },
            None => {
                proof {
                    let digits = s.skip(1);
                    if all_digits(digits) {
                        assert(digits_value(digits) > u64::MAX);
                        assert(-1 * digits_value(digits) < i64::MIN);
                        assert(1 * digits_value(digits) > i64::MAX);
                    }
                }
                assert(spec_parse_i64(s) is None);
                None
            },
        }
    } else {
        if start == end {
            return None;
        }
        assert(s[0] == b@[start as int]);
        match parse_digits(b, start, end) {
            Some(v) => {
                proof {
                    lemma_digits_value_nonneg(s);
                    lemma_pow10_small();
                }
                if v > 0x7FFF_FFFF_FFFF_FFFFu64 {
                    assert(spec_parse_i64(s) is None);
                    None
                } else {
                    assert(spec_parse_i64(s) == Some(1 * (v as int)));
                    Some(v as i64)
                }
            },
            None => {
                proof {
                    if all_digits(s) {
                        assert(1 * digits_value(s) > i64::MAX);
                    }
                }
                assert(spec_parse_i64(s) is None);
                None
            },
        }
    }
}

pub open spec fn is_zone_designator(b: u8) -> bool {
    b == 0x5A || b == 0x2B || b == 0x2D
}

/// First index at or after `i` that holds `Z`, `+` or `-`.
pub open spec fn zone_start(b: Seq<u8>, i: int) -> Option<int>
    decreases b.len() - i,
{
    if i < 0 || i >= b.len() {
        None
    } else if is_zone_designator(b[i]) {
        Some(i)
    } else {
        zone_start(b, i + 1)
    }
}

/// Offset in seconds east of UTC of a zone designator: `Z`, `+hh:mm` or
/// `-hh:mm`.
pub open spec fn zone_offset(tz: Seq<u8>) -> Option<int> {
    if tz == seq![0x5Au8] {
        Some(0)
    } else if tz.len() > 0 && (tz[0] == 0x2B || tz[0] == 0x2D) {
        match (field(tz, 1, 3), field(tz, 4, 6)) {
            (Some(h), Some(m)) => Some(
                (if tz[0] == 0x2B {
                    1int
                } else {
                    -1int
                }) * (h * 3600 + m * 60),
            ),
            _ => None,
        }
    } else {
        None
    }
}

/// Seconds since the epoch of an RFC 3339 timestamp
/// `YYYY-MM-DDThh:mm:ss[.frac](Z|+hh:mm|-hh:mm)`, read from fixed byte
/// positions; `None` for text shorter than twenty bytes or a field that does
/// not read as an integer.
pub open spec fn spec_rfc3339_seconds(b: Seq<u8>) -> Option<int> {
    if b.len() < 20 {
        None
    } else {
        match (
            field(b, 0, 4),
            field(b, 5, 7),
            field(b, 8, 10),
            field(b, 11, 13),
            field(b, 14, 16),
            field(b, 17, 19),
        ) {
            (Some(year), Some(month), Some(day), Some(hour), Some(minute), Some(second)) => {
                match zone_start(b, 19) {
                    Some(k) => match zone_offset(b.skip(k)) {
                        Some(offset) => Some(
                            spec_days_from_civil(year, month, day) * 86_400 + hour * 3600 + minute
                                * 60 + second - offset,
                        ),
                        None => None,
                    },
                    None => None,
                }
            },
            _ => None,
        }
    }
}

/// The two ASCII digits of a number below 100.
pub open spec fn two_digits(n: nat) -> Seq<u8> {
    seq![(0x30 + n / 10) as u8, (0x30 + n % 10) as u8]
}

/// A zone designator `+hh:mm` or `-hh:mm` of `hh` hours and `mm` minutes.
pub open spec fn zone_designator(sign: u8, hh: nat, mm: nat) -> Seq<u8> {
    seq![sign] + two_digits(hh) + seq![0x3Au8] + two_digits(mm)
}

proof fn lemma_two_digits_field(n: nat)
    requires
        n < 100,
    ensures
        spec_parse_i64(two_digits(n)) == Some(n as int),
{
    let d = two_digits(n);
    let first = seq![d[0]];
    assert(d[0] == 0x30 + n / 10);
    assert(d[1] == 0x30 + n % 10);
    assert(d.drop_last() =~= first);
    assert(first.drop_last() =~= Seq::<u8>::empty());
    assert(digits_value(first) == digits_value(first.drop_last()) * 10 + (first.last() - 0x30));
    assert(digits_value(first) == n / 10);
    assert(digits_value(d) == digits_value(d.drop_last()) * 10 + (d.last() - 0x30));
    assert(digits_value(d) == (n / 10) * 10 + n % 10);
    assert(digits_value(d) == n);
    assert(all_digits(d));
    assert(d[0] != 0x2B && d[0] != 0x2D);
    assert(1 * digits_value(d) == n);
}

/// The reading of `local` with the zone `sign hh:mm` is its `Z` reading
/// less the signed offset.
proof fn lemma_zone_reading(local: Seq<u8>, sign: u8, hh: nat, mm: nat)
    requires
        local.len() == 19,
        hh < 100,
        mm < 100,
        sign == 0x2B || sign == 0x2D,
    ensures
        spec_rfc3339_seconds(local + zone_designator(sign, hh, mm)) == (match spec_rfc3339_seconds(
            local.push(0x5A),
        ) {
            Some(t) => Some(t - (if sign == 0x2B {
                1int
            } else {
                -1int
            }) * (hh * 3600 + mm * 60)),
            None => None,
        }),
{
    lemma_two_digits_field(hh);
    lemma_two_digits_field(mm);
    let z = local.push(0x5A);
    let tz = zone_designator(sign, hh, mm);
    let b = local + tz;
    assert(z.skip(19) =~= seq![0x5Au8]);
    assert(zone_start(z, 19) == Some(19int));
    assert(b.len() == 25);
    assert(b.subrange(0, 4) =~= z.subrange(0, 4));
    assert(b.subrange(5, 7) =~= z.subrange(5, 7));
    assert(b.subrange(8, 10) =~= z.subrange(8, 10));
    assert(b.subrange(11, 13) =~= z.subrange(11, 13));
    assert(b.subrange(14, 16) =~= z.subrange(14, 16));
    assert(b.subrange(17, 19) =~= z.subrange(17, 19));
    assert(b[19] == sign);
    assert(zone_start(b, 19) == Some(19int));
    assert(b.skip(19) =~= tz);
    assert(tz.len() == 6);
    assert(tz != seq![0x5Au8]);
    assert(tz.subrange(1, 3) =~= two_digits(hh));
    assert(tz.subrange(4, 6) =~= two_digits(mm));
    assert(field(tz, 1, 3) == Some(hh as int));
    assert(field(tz, 4, 6) == Some(mm as int));
}

/// The same local time read with a zone `+hh:mm` is `hh` hours and `mm`
/// minutes earlier than read with `Z`, and with `-hh:mm` that much later:
/// the zone shifts the UTC reading by its offset.
pub proof fn rfc3339_zone_shifts_utc_reading(local: Seq<u8>, hh: nat, mm: nat)
    requires
        local.len() == 19,
        hh < 100,
        mm < 100,
    ensures
        spec_rfc3339_seconds(local + zone_designator(0x2B, hh, mm)) == (match spec_rfc3339_seconds(
            local.push(0x5A),
        ) {
            Some(t) => Some(t - (hh * 3600 + mm * 60)),
            None => None,
        }),
        spec_rfc3339_seconds(local + zone_designator(0x2D, hh, mm)) == (match spec_rfc3339_seconds(
            local.push(0x5A),
        ) {
            Some(t) => Some(t + (hh * 3600 + mm * 60)),
            None => None,
        }),
{
    lemma_zone_reading(local, 0x2B, hh, mm);
    lemma_zone_reading(local, 0x2D, hh, mm);
}

fn find_zone_start(b: &[u8], from: usize) -> (r: Option<usize>)
    ensures
        (match r {
            Some(k) => Some(k as int),
            None => None::<int>,
        }) == zone_start(b@, from as int),
        r matches Some(k) ==> k < b@.len(),
{
    let mut i = from;
    while i < b.len()
        invariant
            from <= i,
            zone_start(b@, from as int) == zone_start(b@, i as int),
        decreases b.len() - i,
    {
        if b[i] == 0x5A || b[i] == 0x2B || b[i] == 0x2D {
            return Some(i);
        }
        i += 1;
    }
    None
}

pub fn parse_rfc3339_timestamp(value: &str) -> (r: Option<i64>)
    ensures
        (match r {
            Some(v) => Some(v as int),
            None => None::<int>,
        }) == spec_rfc3339_seconds(encode_utf8(value@)),
{
    let b = value.as_bytes();
    if b.len() < 20 {
        return None;
    }
    let year = match parse_i64(b, 0, 4) {
        Some(v) => v,
        None => {
            return None;
        },
    };
    let month = match parse_i64(b, 5, 7) {
        Some(v) => v,
        None => {
            return None;
        },
    };
    let day = match parse_i64(b, 8, 10) {
        Some(v) => v,
        None => {
            return None;
        },
    };
    let hour = match parse_i64(b, 11, 13) {
        Some(v) => v,
        None => {
            return None;
        },
    };
    let minute = match parse_i64(b, 14, 16) {
        Some(v) => v,
        None => {
            return None;
        },
    };
    let second = match parse_i64(b, 17, 19) {
        Some(v) => v,
        None => {
            return None;
        },
    };
    let timezone_start = match find_zone_start(b, 19) {
        Some(k) => k,
        None => {
            return None;
        },
    };
    let ghost tz = b@.skip(timezone_start as int);
    let offset_seconds: i64 = if b.len() - timezone_start == 1 && b[timezone_start] == 0x5A {
        assert(tz =~= seq![0x5Au8]);
        0
    } else {
        proof {
            if tz == seq![0x5Au8] {
                assert(tz.len() == 1 && tz[0] == 0x5A);
            }
        }
        let plus = if b[timezone_start] == 0x2B {
            true
        } else if b[timezone_start] == 0x2D {
            false
        } else {
            return None;
        };
        let offset_hour = match parse_tz_field(b, timezone_start, 1, 3) {
            Some(v) => v,
            None => {
                return None;
            },
        };
        let offset_minute = match parse_tz_field(b, timezone_start, 4, 6) {
            Some(v) => v,
            None => {
                return None;
            },
        };
        let total = offset_hour * 3600 + offset_minute * 60;
        if plus {
            assert(1 * (total as int) == total as int);
            total
        } else {
            assert(-1 * (total as int) == -(total as int));
            -total
        }
    };
    let days = days_from_civil(year, month, day);
    Some(days * 86_400 + hour * 3600 + minute * 60 + second - offset_seconds)
}

/// Reads the integer at `start..end` of the zone designator that begins at
/// byte `k`.
fn parse_tz_field(b: &[u8], k: usize, start: usize, end: usize) -> (r: Option<i64>)
    requires
        k <= b.len(),
        start <= end,
        end - start <= 4,
        end <= 6,
    ensures
        (match r {
            Some(v) => Some(v as int),
            None => None::<int>,
        }) == field(b@.skip(k as int), start as int, end as int),
        r matches Some(v) ==> field_in_range(v as int),
{
    if end > b.len() - k {
        return None;
    }
    let r = parse_i64(b, k + start, k + end);
    assert(b@.subrange(k + start, k + end) =~= b@.skip(k as int).subrange(
        start as int,
        end as int,
    ));
    r
}

/// The sort key of a `received_at` text: the RFC 2822 reading when
/// `mailparse` accepts it, else the RFC 3339 reading, else 0.
pub open spec fn spec_received_at_sort_key(value: Seq<char>) -> int {
    match rfc2822_timestamp(value) {
        Some(t) => t as int,
        None => match spec_rfc3339_seconds(encode_utf8(value)) {
            Some(t) => t,
            None => 0,
        },
    }
}

pub fn received_at_sort_key(value: &str) -> (r: i64)
    ensures
        r as int == spec_received_at_sort_key(value@),
{
    match dateparse(value) {
        Some(t) => t,
        None => match parse_rfc3339_timestamp(value) {
            Some(t) => t,
            None => 0,
        },
    }
}

} // verus!
