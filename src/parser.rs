use vstd::prelude::*;
use vstd::utf8::{encode_utf8, is_ascii_chars};

use crate::error::CompileError;

verus! {

/// Binds a day type to the operating period that says on which days it runs.
pub struct DayTypeAssignment {
    pub operating_period: u64,
    pub day_type: u64,
    pub is_available: bool,
}

/// A dated calendar: `valid_day_bits` holds one bit per day, least significant
/// bit first.
pub struct UicOperatingPeriod {
    pub id: u64,
    pub from: u32,
    pub to: u32,
    pub valid_day_bits: Vec<u8>,
}

/// A physical stop. Coordinates are carried as IEEE-754 `f32` bit patterns.
pub struct ScheduledStopPoint {
    pub id: u64,
    pub short_name: String,
    pub long_bits: u32,
    pub lat_bits: u32,
}

/// A point of a journey pattern and the scheduled stop point it refers to.
pub struct StopPointInJourneyPattern {
    pub id: u64,
    pub scheduled_stop_point: u64,
}

/// A journey pattern: its id, its line and its ordered stop points.
pub struct PointsInSequence {
    pub id: u64,
    pub line: u64,
    pub stops: Vec<StopPointInJourneyPattern>,
}

/// Arrival and departure (minute of day) at one point of a journey pattern.
pub struct TimetabledPassingTime {
    pub stop_point_in_journey_pattern: u64,
    pub arrival: u16,
    pub departure: u16,
}

/// One scheduled trip following a journey pattern.
pub struct ServiceJourney {
    pub passing_times: Vec<TimetabledPassingTime>,
    pub day_type: u64,
    pub transport_mode: String,
    pub pattern_ref: u64,
}

pub struct Line {
    pub id: u64,
    pub short_name: String,
    pub authority: u64,
}

pub struct Authority {
    pub id: u64,
    pub short_name: String,
}

/// The records of one timetable dataset. Identifiers are local to it.
pub struct NetexData {
    pub scheduled_stop_points: Vec<ScheduledStopPoint>,
    pub service_journey_patterns: Vec<PointsInSequence>,
    pub service_journeys: Vec<ServiceJourney>,
    pub operating_periods: Vec<UicOperatingPeriod>,
    pub day_type_assignments: Vec<DayTypeAssignment>,
    pub lines: Vec<Line>,
    pub authorities: Vec<Authority>,
}

/// The bytes of an ASCII text: one per character.
pub open spec fn field_bytes(c: Seq<char>) -> Seq<u8> {
    Seq::new(c.len(), |i: int| c[i] as u8)
}

pub open spec fn is_digit(b: u8) -> bool {
    48 <= b <= 57
}

pub open spec fn digit(b: u8) -> int {
    b - 48
}

/// `hh:mm...`: the hour and minute digits stand at bytes 0, 1, 3 and 4; no
/// other byte is read.
pub open spec fn minutes_field_ok(b: Seq<u8>) -> bool {
    &&& b.len() >= 5
    &&& is_digit(b[0]) && is_digit(b[1]) && is_digit(b[3]) && is_digit(b[4])
}

pub open spec fn minutes_value(b: Seq<u8>) -> int {
    digit(b[0]) * 600 + digit(b[1]) * 60 + digit(b[3]) * 10 + digit(b[4])
}

/// `yyyy-mm-dd...`: the digits of `yymmdd` stand at bytes 2, 3, 5, 6, 8 and 9;
/// no other byte is read.
pub open spec fn date_field_ok(b: Seq<u8>) -> bool {
    &&& b.len() >= 10
    &&& is_digit(b[2]) && is_digit(b[3]) && is_digit(b[5])
    &&& is_digit(b[6]) && is_digit(b[8]) && is_digit(b[9])
}

pub open spec fn date_value(b: Seq<u8>) -> int {
    digit(b[2]) * 100000 + digit(b[3]) * 10000 + digit(b[5]) * 1000 + digit(b[6]) * 100
        + digit(b[8]) * 10 + digit(b[9])
}

pub open spec fn is_bit_char(b: u8) -> bool {
    b == 48 || b == 49
}

pub open spec fn bit_chars_ok(b: Seq<u8>) -> bool {
    forall|i: int| 0 <= i < b.len() ==> is_bit_char(#[trigger] b[i])
}

/// `2^n`.
pub open spec fn weight(n: nat) -> nat
    decreases n,
{
    if n == 0 {
        1
    } else {
        2 * weight((n - 1) as nat)
    }
}

proof fn lemma_weight_le(i: nat, j: nat)
    requires
        i <= j,
    ensures
        weight(i) <= weight(j),
    decreases j,
{
    if i < j {
        lemma_weight_le(i, (j - 1) as nat);
    }
}

/// The number whose binary digits, least significant first, are the `'0'` /
/// `'1'` characters of `b`.
pub open spec fn pack(b: Seq<u8>) -> nat
    decreases b.len(),
{
    if b.len() == 0 {
        0
    } else {
        pack(b.drop_last()) + (if b.last() == 49 { weight((b.len() - 1) as nat) } else { 0 })
    }
}

/// `b` padded with `'0'` to a whole number of groups of eight.
pub open spec fn padded_bits(b: Seq<u8>) -> Seq<u8> {
    b + Seq::new((8 * byte_count(b.len()) - b.len()) as nat, |i: int| 48u8)
}

pub open spec fn byte_count(n: nat) -> nat {
    (n + 7) / 8
}

/// Day `8 * k + j` is bit `j` of byte `k`.
pub open spec fn day_bytes(b: Seq<u8>) -> Seq<u8> {
    Seq::new(
        byte_count(b.len()),
        |k: int| pack(padded_bits(b).subrange(8 * k, 8 * k + 8)) as u8,
    )
}

impl NetexData {
    /// Minute of day of a time written `hh:mm:ss`; the seconds are not read.
    pub fn parse_minutes(value: &str) -> (r: Result<u16, CompileError>)
        ensures
            minutes_field_ok(encode_utf8(value@)) ==> r == Ok::<u16, CompileError>(
                minutes_value(encode_utf8(value@)) as u16,
            ),
            !minutes_field_ok(encode_utf8(value@)) ==> r == Err::<
                u16,
                CompileError,
            >(
                CompileError::MalformedField,
            ),
    {
        let bytes = value.as_bytes();
        if bytes.len() < 5 {
            return Err(CompileError::MalformedField);
        }
        let (h1, h0, m1, m0) = (bytes[0], bytes[1], bytes[3], bytes[4]);
        if !(48 <= h1 && h1 <= 57 && 48 <= h0 && h0 <= 57 && 48 <= m1 && m1 <= 57 && 48 <= m0
            && m0 <= 57) {
            return Err(CompileError::MalformedField);
        }
        let result: u16 = (h1 as u16 - 48) * 600 + (h0 as u16 - 48) * 60 + (m1 as u16 - 48) * 10
            + (m0 as u16 - 48);
        Ok(result)
    }

    /// A date written `yyyy-mm-dd...` as the number `yymmdd`.
    pub fn parse_date(value: &str) -> (r: Result<u32, CompileError>)
        ensures
            date_field_ok(encode_utf8(value@)) ==> r == Ok::<u32, CompileError>(
                date_value(encode_utf8(value@)) as u32,
            ),
            !date_field_ok(encode_utf8(value@)) ==> r == Err::<
                u32,
                CompileError,
            >(
                CompileError::MalformedField,
            ),
    {
        let b = value.as_bytes();
        if b.len() < 10 {
            return Err(CompileError::MalformedField);
        }
        let (y1, y0, m1, m0, d1, d0) = (b[2], b[3], b[5], b[6], b[8], b[9]);
        if !(48 <= y1 && y1 <= 57 && 48 <= y0 && y0 <= 57 && 48 <= m1 && m1 <= 57 && 48 <= m0
            && m0 <= 57 && 48 <= d1 && d1 <= 57 && 48 <= d0 && d0 <= 57) {
            return Err(CompileError::MalformedField);
        }
        let result: u32 = (y1 as u32 - 48) * 100000 + (y0 as u32 - 48) * 10000 + (m1 as u32 - 48)
            * 1000 + (m0 as u32 - 48) * 100 + (d1 as u32 - 48) * 10 + (d0 as u32 - 48);
        Ok(result)
    }
    /// Packs eight `'0'` / `'1'` characters into one byte, the first
    /// character in the least significant bit.
    pub fn parse_day_bit_group(value: &[u8]) -> (r: u8)
        requires
            value@.len() >= 8,
            bit_chars_ok(value@.subrange(0, 8)),
        ensures
            r == pack(value@.subrange(0, 8)),
    {
        let mut acc: u32 = 0;
        let mut w: u32 = 1;
        let mut i: usize = 0;
        while i < 8
            invariant
                0 <= i <= 8,
                value@.len() >= 8,
                bit_chars_ok(value@.subrange(0, 8)),
                acc == pack(value@.subrange(0, i as int)),
                w == weight(i as nat),
                acc < w,
                w <= 256,
            decreases 8 - i,
        {
            assert(value@.subrange(0, i + 1).drop_last() =~= value@.subrange(0, i as int));
            assert(is_bit_char(value@.subrange(0, 8)[i as int]));
            proof {
                lemma_weight_le((i + 1) as nat, 8);
                reveal_with_fuel(weight, 9);
            }
            if value[i] == 49 {
                acc = acc + w;
            }
            w = w * 2;
            i = i + 1;
        }
        acc as u8
    }

    /// Packs a day-validity string of `'0'` / `'1'` characters into bytes,
    /// one bit per day, least significant bit first; the last byte is padded
    /// with zero bits.
    pub fn parse_day_bits(value: String) -> (r: Result<Vec<u8>, CompileError>)
        ensures
            is_ascii_chars(value@) && bit_chars_ok(field_bytes(value@)) ==> (r matches Ok(v) && v@
                == day_bytes(field_bytes(value@))),
            !(is_ascii_chars(value@) && bit_chars_ok(field_bytes(value@))) ==> r == Err::<
                Vec<u8>,
                CompileError,
            >(
                CompileError::MalformedField,
            ),
    {
        let text = value.as_str();
        if !text.is_ascii() {
            return Err(CompileError::MalformedField);
        }
        let bytes = text.as_bytes();
        let ghost b = field_bytes(value@);
        proof {
            broadcast use vstd::string::is_ascii_spec_bytes;

            assert(bytes@ =~= b);
        }
        let n = bytes.len();
        let mut i: usize = 0;
        while i < n
            invariant
                0 <= i <= n,
                n == b.len(),
                bytes@ == b,
                b == field_bytes(value@),
                is_ascii_chars(value@),
                forall|j: int| 0 <= j < i ==> is_bit_char(#[trigger] b[j]),
            decreases n - i,
        {
            if bytes[i] != 48 && bytes[i] != 49 {
                assert(bytes@[i as int] == b[i as int]);
                assert(!is_bit_char(b[i as int]));
                return Err(CompileError::MalformedField);
            }
            i = i + 1;
        }
        let count: usize = if n % 8 == 0 { n / 8 } else { n / 8 + 1 };
        assert(count == byte_count(n as nat));
        let ghost pb = padded_bits(b);
        assert forall|j: int| 0 <= j < pb.len() implies is_bit_char(#[trigger] pb[j]) by {
            if j >= n {
                assert(pb[j] == 48u8);
            }
        }
        let mut result: Vec<u8> = Vec::new();
        let mut k: usize = 0;
        while k < count
            invariant
                0 <= k <= count,
                count == byte_count(n as nat),
                n == b.len(),
                bytes@ == b,
                pb == padded_bits(b),
                b == field_bytes(value@),
                is_ascii_chars(value@),
                forall|j: int| 0 <= j < pb.len() ==> is_bit_char(#[trigger] pb[j]),
                result@ == day_bytes(b).subrange(0, k as int),
            decreases count - k,
        {
            let mut group: Vec<u8> = Vec::new();
            let mut j: usize = 0;
            while j < 8
                invariant
                    0 <= j <= 8,
                    k < count,
                    count == byte_count(n as nat),
                    n == b.len(),
                    bytes@ == b,
                    pb == padded_bits(b),
                    group@ == pb.subrange(8 * k, 8 * k + j),
                decreases 8 - j,
            {
                if j < n - 8 * k {
                    group.push(bytes[8 * k + j]);
                } else {
                    group.push(48);
                }
                assert(group@ =~= pb.subrange(8 * k, 8 * k + j + 1));
                j = j + 1;
            }
            assert(group@.subrange(0, 8) =~= group@);
            assert forall|t: int| 0 <= t < 8 implies is_bit_char(#[trigger] group@.subrange(0, 8)[t]) by {
                assert(group@[t] == pb[8 * k + t]);
            }
            let byte = Self::parse_day_bit_group(group.as_slice());
            result.push(byte);
            assert(result@ =~= day_bytes(b).subrange(0, k + 1));
            k = k + 1;
        }
        assert(result@ =~= day_bytes(b));
        Ok(result)
    }
}

} // verus!
