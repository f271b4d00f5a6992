//! Identifiers and clock readings drawn from the outside world, the text
//! forms of identifiers and quantities, and times in whole milliseconds.
//!
//! Identifiers and clock readings depend on something other than their
//! arguments (the operating system's random number generator, the wall
//! clock), so nothing is promised of their values beyond what the outside
//! crates document for every outcome.
use vstd::arithmetic::power::pow;
use vstd::prelude::*;

verus! {

/// Draws a fresh random identifier through `uuid::Uuid::new_v4` and returns it
/// as its 128-bit big-endian value (`Uuid::as_u128`).
///
/// The outside source sets the version nibble to 4 and the variant bits to
/// `10` on every value it returns; the remaining 122 bits are random, and
/// nothing more is claimed of them. It panics if the operating system cannot
/// supply random bytes, which no argument decides.
#[verifier::external_body]
pub(crate) fn new_uuid() -> (id: u128)
    ensures
        id & 0xF000_C000_0000_0000_0000u128 == 0x4000_8000_0000_0000_0000u128,
{
    uuid::Uuid::new_v4().as_u128()
}

/// Reads the wall clock through `chrono::Utc::now` and returns the reading
/// as whole seconds since the Unix epoch (`DateTime::timestamp`) and the
/// nanoseconds past that second (`DateTime::timestamp_subsec_nanos`).
///
/// The reading depends on the time of the call. The outside source builds it
/// from the system clock's duration since the epoch (it panics on a clock set
/// before the epoch), so the seconds are not negative, the nanoseconds are
/// those of a `Duration` (below one billion), and the seconds lie within the
/// years a `DateTime` can hold (below year 262143); nothing more is claimed.
#[verifier::external_body]
fn clock_reading() -> (r: (i64, u32))
    ensures
        0 <= r.0 < 10_000_000_000_000,
        r.1 < 1_000_000_000,
{
    let now = chrono::Utc::now();
    (now.timestamp(), now.timestamp_subsec_nanos())
}

/// The current time in nanoseconds since the Unix epoch.
pub(crate) fn now_nanos() -> (t: i128)
    ensures
        0 <= t < 10_000_000_000_000_000_000_000,
        millis_fit(t),
{
    let (secs, nanos) = clock_reading();
    secs as i128 * 1_000_000_000 + nanos as i128
}

/// A time in nanoseconds whose whole milliseconds fit in an `i64`.
pub open spec fn millis_fit(t: i128) -> bool {
    i64::MIN * 1_000_000 <= t <= i64::MAX * 1_000_000
}

/// The whole milliseconds of a time in nanoseconds, rounded down (towards
/// the past, also before the epoch).
pub fn millis_of(t: i128) -> (ms: i64)
    requires
        millis_fit(t),
    ensures
        ms == t / 1_000_000,
{
    if t >= 0 {
        (t / 1_000_000) as i64
    } else {
        let q = (-t + 999_999) / 1_000_000;
        assert(-q == t / 1_000_000) by (nonlinear_arith)
            requires
                t < 0,
                q == (-t + 999_999) / 1_000_000,
        ;
        (-q) as i64
    }
}

/// The character of a hexadecimal digit, in lower case.
pub open spec fn hex_char(d: int) -> char {
    if d < 10 {
        (48 + d) as char
    } else {
        (87 + d) as char
    }
}

/// The `k`-th of the 32 hexadecimal digits of `id`, most significant first.
pub open spec fn hex_digit_at(id: u128, k: int) -> char {
    hex_char((id as int / pow(16, (31 - k) as nat)) % 16)
}

/// The hyphenated text of an identifier: its 32 hexadecimal digits, most
/// significant first, in groups of 8, 4, 4, 4 and 12 joined by hyphens.
pub open spec fn uuid_text(id: u128) -> Seq<char> {
    Seq::new(
        36,
        |i: int|
            if i == 8 || i == 13 || i == 18 || i == 23 {
                '-'
            } else if i < 8 {
                hex_digit_at(id, i)
            } else if i < 13 {
                hex_digit_at(id, i - 1)
            } else if i < 18 {
                hex_digit_at(id, i - 2)
            } else if i < 23 {
                hex_digit_at(id, i - 3)
            } else {
                hex_digit_at(id, i - 4)
            },
    )
}

/// The decimal text of a number, without leading zeros.
pub open spec fn decimal_text(n: nat) -> Seq<char>
    decreases n,
{
    if n < 10 {
        seq![(48 + n) as char]
    } else {
        decimal_text(n / 10).push((48 + n % 10) as char)
    }
}

/// Formats an identifier through `uuid::Uuid::from_u128` and `Uuid`'s
/// `Display`, which writes the big-endian bytes as lower-case hexadecimal in
/// the hyphenated 8-4-4-4-12 layout; the contract states that text.
#[verifier::external_body]
pub(crate) fn format_uuid(id: u128) -> (s: String)
    ensures
        s@ == uuid_text(id),
{
    uuid::Uuid::from_u128(id).to_string()
}

/// Formats a number through `u64`'s `Display` (via `to_string`), which
/// writes it in decimal without leading zeros; the contract states that text.
#[verifier::external_body]
pub(crate) fn format_u64(n: u64) -> (s: String)
    ensures
        s@ == decimal_text(n as nat),
{
    n.to_string()
}

/// The value of a run of decimal digits.
pub open spec fn digits_value(s: Seq<char>) -> nat
    decreases s.len(),
{
    if s.len() == 0 {
        0
    } else {
        digits_value(s.drop_last()) * 10 + (s.last() as nat - 48) as nat
    }
}

/// The number a text denotes as a `u16` in `str::parse`'s sense: an
/// optional `+`, then one or more decimal digits, of value at most 65535.
pub open spec fn parse_u16(s: Seq<char>) -> Option<u16> {
    let d = if s.len() > 0 && s[0] == '+' { s.drop_first() } else { s };
    if d.len() > 0 && (forall|i: int| 0 <= i < d.len() ==> '0' <= #[trigger] d[i] <= '9') && digits_value(d)
        <= 65535 {
        Some(digits_value(d) as u16)
    } else {
        None
    }
}

/// Parses a port number through `str::parse::<u16>`, which accepts an
/// optional `+` followed by decimal digits whose value fits a `u16`, and
/// refuses anything else; the contract states that.
#[verifier::external_body]
pub(crate) fn parse_port(s: &str) -> (r: Option<u16>)
    ensures
        r == parse_u16(s@),
{
    s.parse::<u16>().ok()
}

} // verus!
