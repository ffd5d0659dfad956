//! DVB time fields and the tables that carry them: TDT and TOT.
use vstd::prelude::*;
use vstd::slice::slice_to_vec;

use crate::bytes::{be16_at, low12, read_be32, read_low12};
use crate::descriptor::{iter_descriptors, DescriptorIter};
use crate::error::{truncated, TsError};
use crate::psi::crc::mpeg2_crc32;
use crate::psi::section::{
    crc_broken, crc_error, parse_short_section_body, section_total, short_section_error,
    wrong_table,
};

verus! {

/// TDT `table_id`.
pub const TDT_TABLE_ID: u8 = 0x70;

/// TOT `table_id`.
pub const TOT_TABLE_ID: u8 = 0x73;

/// PID of TDT and TOT.
pub const TDT_TOT_PID: u16 = 0x0014;

/// A calendar date and wall-clock time decoded from a 40-bit field.
#[derive(Debug, Clone, Copy, PartialEq, Eq)]
pub struct EitDateTime {
    /// Gregorian year.
    pub year: u16,
    /// Month, 1 to 12.
    pub month: u8,
    /// Day of the month, 1 to 31.
    pub day: u8,
    /// UTC hour, as decoded from BCD.
    pub hour: u8,
    /// UTC minute, as decoded from BCD.
    pub minute: u8,
    /// UTC second, as decoded from BCD.
    pub second: u8,
    /// The 16-bit Modified Julian Date.
    pub mjd: u16,
}

/// An event duration: hours, minutes and seconds decoded from BCD.
#[derive(Debug, Clone, Copy, PartialEq, Eq)]
pub struct EitDuration {
    /// Hours.
    pub hours: u8,
    /// Minutes.
    pub minutes: u8,
    /// Seconds.
    pub seconds: u8,
}

impl Default for EitDuration {
    fn default() -> (r: Self)
        ensures
            r.hours == 0 && r.minutes == 0 && r.seconds == 0,
    {
        EitDuration { hours: 0, minutes: 0, seconds: 0 }
    }
}

impl EitDuration {
    /// The duration in seconds.
    pub fn as_seconds(&self) -> (r: u32)
        ensures
            r == self.hours * 3600 + self.minutes * 60 + self.seconds,
    {
        self.hours as u32 * 3600 + self.minutes as u32 * 60 + self.seconds as u32
    }
}

/// Value of two BCD digits: ten times the high nibble plus the low one.
pub open spec fn bcd_value(b: u8) -> int {
    (b >> 4) * 10 + (b & 0x0F)
}

/// Decode two BCD digits.
pub fn bcd_byte(b: u8) -> (r: u8)
    ensures
        r == bcd_value(b),
{
    assert(b >> 4 <= 15 && b & 0x0F <= 15) by (bit_vector);
    (b >> 4) * 10 + (b & 0x0F)
}

/// The day number that the date formula goes by. It takes 1900 for a leap year,
/// so every day before March 1900 counts one less.
pub open spec fn formula_day(mjd: int) -> int {
    if mjd < 15079 { mjd - 1 } else { mjd }
}

/// `Y' = int((MJD - 15078,2) / 365,25)`, rounded down.
pub open spec fn mjd_year(mjd: int) -> int {
    ((formula_day(mjd) - 15078) * 100 - 20) / 36525
}

/// `int(Y' * 365,25)`, rounded down.
pub open spec fn mjd_year_days(mjd: int) -> int {
    mjd_year(mjd) * 36525 / 100
}

/// `M' = int((MJD - 14956,1 - int(Y' * 365,25)) / 30,6001)`.
pub open spec fn mjd_month(mjd: int) -> int {
    ((formula_day(mjd) - 14956 - mjd_year_days(mjd)) * 10000 - 1) / 306001
}

/// `D = MJD - 14956 - int(Y' * 365,25) - int(M' * 30,6001)`.
pub open spec fn mjd_day(mjd: int) -> int {
    formula_day(mjd) - 14956 - mjd_year_days(mjd) - mjd_month(mjd) * 306001 / 10000
}

/// `K = 1` for `M' = 14` and `M' = 15`.
pub open spec fn mjd_carry(mjd: int) -> int {
    if mjd_month(mjd) == 14 || mjd_month(mjd) == 15 { 1 } else { 0 }
}

/// A day of the Gregorian calendar.
#[verifier::ext_equal]
pub struct CivilDate {
    /// The year.
    pub year: int,
    /// The month, from 1 on.
    pub month: int,
    /// The day of the month, from 1 on.
    pub day: int,
}

/// The Gregorian date of a Modified Julian Date.
pub open spec fn civil_date(mjd: int) -> CivilDate {
    CivilDate {
        year: 1900 + mjd_year(mjd) + mjd_carry(mjd),
        month: mjd_month(mjd) - 1 - mjd_carry(mjd) * 12,
        day: mjd_day(mjd),
    }
}

/// Leap years of the Gregorian calendar.
pub open spec fn is_leap(year: int) -> bool {
    year % 4 == 0 && (year % 100 != 0 || year % 400 == 0)
}

/// Days of a month.
pub open spec fn month_len(year: int, month: int) -> int {
    if month == 2 {
        if is_leap(year) { 29 } else { 28 }
    } else if month == 4 || month == 6 || month == 9 || month == 11 {
        30
    } else {
        31
    }
}

impl CivilDate {
    /// The day after.
    pub open spec fn next(self) -> CivilDate {
        if self.day < month_len(self.year, self.month) {
            CivilDate { day: self.day + 1, ..self }
        } else if self.month < 12 {
            CivilDate { month: self.month + 1, day: 1, ..self }
        } else {
            CivilDate { year: self.year + 1, month: 1, day: 1 }
        }
    }
}

/// Where the formula puts a day: in year `Y'`, counted from March on.
proof fn lemma_formula(mjd: int)
    requires
        0 <= mjd <= 65535,
    ensures
        -42 <= mjd_year(mjd) <= 138,
        mjd_year_days(mjd) == 365 * mjd_year(mjd) + mjd_year(mjd) / 4,
        ({
            let rem = formula_day(mjd) - 14956 - mjd_year_days(mjd);
            &&& 123 <= rem <= (if mjd_year(mjd) % 4 == 3 { 488int } else { 487 })
            &&& 4 <= mjd_month(mjd) <= 15
            &&& 306001 * mjd_month(mjd) <= rem * 10000 - 1 < 306001 * mjd_month(mjd) + 306001
        }),
{
    let n = formula_day(mjd);
    let yp = mjd_year(mjd);
    let yd = mjd_year_days(mjd);
    let rem = n - 14956 - yd;
    assert(36525 * yp <= 100 * n - 1507820 < 36525 * yp + 36525);
    assert(100 * yd <= 36525 * yp < 100 * yd + 100);
}

/// Every Modified Julian Date of 16 bits has a month of 1 to 12 and a day of 1 to
/// 31.
pub proof fn lemma_date_in_range(mjd: int)
    requires
        0 <= mjd <= 65535,
    ensures
        1858 <= civil_date(mjd).year <= 2038,
        1 <= civil_date(mjd).month <= 12,
        1 <= civil_date(mjd).day <= 31,
{
    lemma_formula(mjd);
    let mp = mjd_month(mjd);
    let md = mp * 306001 / 10000;
    assert(10000 * md <= mp * 306001 < 10000 * md + 10000);
}

/// The days that the formula counts one less are those before March 1900.
pub proof fn lemma_before_march_1900(mjd: int)
    requires
        0 <= mjd <= 65535,
    ensures
        mjd < 15079 <==> civil_date(mjd).year < 1900 || (civil_date(mjd).year == 1900 && civil_date(
            mjd,
        ).month < 3),
        mjd_month(mjd) - 1 == civil_date(mjd).month + 12 * mjd_carry(mjd),
        mjd_carry(mjd) == 1 <==> civil_date(mjd).month < 3,
{
    lemma_formula(mjd);
}

/// The dates are those of the Gregorian calendar: day 0 is 17 November 1858, and
/// each day is the one after the day before.
pub proof fn lemma_dates_are_gregorian(mjd: int)
    requires
        0 <= mjd < 65535,
    ensures
        civil_date(0) == (CivilDate { year: 1858, month: 11, day: 17 }),
        civil_date(mjd + 1) == civil_date(mjd).next(),
{
    assert(civil_date(0) == (CivilDate { year: 1858, month: 11, day: 17 }));
    lemma_formula(mjd);
    lemma_formula(mjd + 1);
    lemma_date_in_range(mjd);
    lemma_date_in_range(mjd + 1);
}

/// The date and time of a 5-byte field; all ones mean none.
pub open spec fn utc_time_spec(b: Seq<u8>) -> Option<EitDateTime> {
    if b[0] == 0xFF && b[1] == 0xFF && b[2] == 0xFF && b[3] == 0xFF && b[4] == 0xFF {
        None
    } else {
        let date = civil_date(be16_at(b, 0) as int);
        Some(
            EitDateTime {
                year: date.year as u16,
                month: date.month as u8,
                day: date.day as u8,
                hour: bcd_value(b[2]) as u8,
                minute: bcd_value(b[3]) as u8,
                second: bcd_value(b[4]) as u8,
                mjd: be16_at(b, 0),
            },
        )
    }
}

/// Whatever a field holds, the time read from it has a month of 1 to 12 and a day
/// of 1 to 31, and its date is that of its Modified Julian Date.
pub proof fn lemma_utc_time_in_range(b: Seq<u8>)
    ensures
        utc_time_spec(b) matches Some(d) ==> {
            &&& 1 <= d.month <= 12
            &&& 1 <= d.day <= 31
            &&& d.mjd == be16_at(b, 0)
            &&& civil_date(d.mjd as int) == (CivilDate {
                year: d.year as int,
                month: d.month as int,
                day: d.day as int,
            })
        },
{
    lemma_date_in_range(be16_at(b, 0) as int);
}

/// Decode a 40-bit DVB time: 16 bits of Modified Julian Date, then six BCD
/// digits of hours, minutes and seconds. `None` for the all-ones field.
pub fn decode_utc_time(bytes: [u8; 5]) -> (r: Option<EitDateTime>)
    ensures
        r == utc_time_spec(bytes@),
        r matches Some(d) ==> 1 <= d.month <= 12 && 1 <= d.day <= 31,
{
    if bytes[0] == 0xFF && bytes[1] == 0xFF && bytes[2] == 0xFF && bytes[3] == 0xFF && bytes[4]
        == 0xFF {
        return None;
    }
    let mjd: u16 = ((bytes[0] as u16) << 8) | (bytes[1] as u16);
    proof {
        lemma_formula(mjd as int);
        lemma_date_in_range(mjd as int);
    }
    let n: i64 = if mjd < 15079 { mjd as i64 - 1 } else { mjd as i64 };
    // Forty-four years more keep the dividends positive; they are 16071 days.
    let yp: i64 = (((n - 15078) * 100 - 20 + 44 * 36525) as u64 / 36525) as i64 - 44;
    assert(yp == mjd_year(mjd as int));
    let yp_days: i64 = (((yp + 44) * 36525) as u64 / 100) as i64 - 16071;
    assert(yp_days == mjd_year_days(mjd as int));
    let mp: i64 = (((n - 14956 - yp_days) * 10000 - 1) as u64 / 306001) as i64;
    let day: i64 = n - 14956 - yp_days - ((mp * 306001) as u64 / 10000) as i64;
    let k: i64 = if mp == 14 || mp == 15 { 1 } else { 0 };
    Some(
        EitDateTime {
            year: (1900 + yp + k) as u16,
            month: (mp - 1 - k * 12) as u8,
            day: day as u8,
            hour: bcd_byte(bytes[2]),
            minute: bcd_byte(bytes[3]),
            second: bcd_byte(bytes[4]),
            mjd,
        },
    )
}

/// Time and Date Table: a short-form section with nothing but the time.
#[derive(Debug, Clone, Copy, PartialEq, Eq)]
pub struct TimeDateTable {
    /// `UTC_time`; `None` for the all-ones field.
    pub utc_time: Option<EitDateTime>,
}

/// Why `s` is not a TDT section, if it is not.
pub open spec fn tdt_error(s: Seq<u8>) -> Option<TsError> {
    if s.len() == 0 || s[0] != 0x70 {
        Some(wrong_table())
    } else if short_section_error(s) is Some {
        short_section_error(s)
    } else if section_total(s) - 3 < 5 {
        Some(truncated("TDT body", section_total(s) - 3, 5))
    } else {
        None
    }
}

impl TimeDateTable {
    /// `table_id` of a TDT.
    pub const TABLE_ID: u8 = TDT_TABLE_ID;

    /// Parse a TDT section, from `table_id` through its end.
    pub fn parse(section: &[u8]) -> (r: Result<Self, TsError>)
        ensures
            r == (match tdt_error(section@) {
                Some(e) => Err::<Self, TsError>(e),
                None => Ok(TimeDateTable { utc_time: utc_time_spec(section@.subrange(3, 8)) }),
            }),
    {
        if section.len() == 0 || section[0] != TDT_TABLE_ID {
            return Err(TsError::Unsupported("PSI table_id does not match expected value"));
        }
        let body: &[u8] = parse_short_section_body(section)?;
        if body.len() < 5 {
            return Err(TsError::Truncated { what: "TDT body", have: body.len(), need: 5 });
        }
        let utc: [u8; 5] = [body[0], body[1], body[2], body[3], body[4]];
        assert(utc@ =~= section@.subrange(3, 8));
        Ok(TimeDateTable { utc_time: decode_utc_time(utc) })
    }
}

/// Time Offset Table: the time, a descriptor loop and a CRC.
#[derive(Debug, Clone, PartialEq, Eq)]
pub struct TimeOffsetTable {
    /// `UTC_time`; `None` for the all-ones field.
    pub utc_time: Option<EitDateTime>,
    /// Bytes of the descriptor loop.
    pub descriptors: Vec<u8>,
}

/// Why `s` is not a TOT section, if it is not.
pub open spec fn tot_error(s: Seq<u8>) -> Option<TsError> {
    let n = section_total(s) - 3;
    if s.len() == 0 || s[0] != 0x73 {
        Some(wrong_table())
    } else if short_section_error(s) is Some {
        short_section_error(s)
    } else if n < 11 {
        Some(truncated("TOT body", n, 11))
    } else if crc_broken(s) {
        Some(crc_error(s))
    } else if 11 + low12(s[8], s[9]) > n {
        Some(
            TsError::SectionLengthOverrun {
                claimed: low12(s[8], s[9]) as usize,
                have: (n - 11) as usize,
            },
        )
    } else {
        None
    }
}

impl TimeOffsetTable {
    /// `table_id` of a TOT.
    pub const TABLE_ID: u8 = TOT_TABLE_ID;

    /// Parse a TOT section, from `table_id` through the CRC.
    pub fn parse(section: &[u8]) -> (r: Result<Self, TsError>)
        ensures
            match r {
                Ok(t) => {
                    &&& tot_error(section@) is None
                    &&& t.utc_time == utc_time_spec(section@.subrange(3, 8))
                    &&& t.descriptors@ == section@.subrange(
                        10,
                        10 + low12(section@[8], section@[9]),
                    )
                },
                Err(e) => tot_error(section@) == Some(e),
            },
    {
        if section.len() == 0 || section[0] != TOT_TABLE_ID {
            return Err(TsError::Unsupported("PSI table_id does not match expected value"));
        }
        let body: &[u8] = parse_short_section_body(section)?;
        if body.len() < 11 {
            return Err(TsError::Truncated { what: "TOT body", have: body.len(), need: 11 });
        }
        let crc_pos: usize = body.len() - 1;
        let computed: u32 = mpeg2_crc32(&section[0..crc_pos]);
        let header_crc: u32 = read_be32(section, crc_pos);
        if computed != header_crc {
            return Err(TsError::PsiCrcMismatch { header: header_crc, computed });
        }
        let utc: [u8; 5] = [body[0], body[1], body[2], body[3], body[4]];
        assert(utc@ =~= section@.subrange(3, 8));
        let n: usize = read_low12(body, 5);
        if 11 + n > body.len() {
            return Err(TsError::SectionLengthOverrun { claimed: n, have: body.len() - 11 });
        }
        let descriptors: Vec<u8> = slice_to_vec(&body[7..7 + n]);
        assert(descriptors@ =~= section@.subrange(10, 10 + n));
        Ok(TimeOffsetTable { utc_time: decode_utc_time(utc), descriptors })
    }

    /// Walk the descriptor loop.
    pub fn iter_descriptors(&self) -> (r: DescriptorIter<'_>)
        ensures
            r.remaining() == self.descriptors@,
    {
        iter_descriptors(self.descriptors.as_slice())
    }
}

} // verus!
