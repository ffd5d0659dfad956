//! The long-form and short-form section headers, and the walk over
//! the sections of one payload.
//!
//! ```text
//! table_id (8) | section_syntax_indicator (1) | '0' | reserved (2) | section_length (12)
//! table_id_extension (16)
//! reserved (2) | version_number (5) | current_next_indicator (1)
//! section_number (8) | last_section_number (8)
//! body | CRC_32 (32)
//! ```
//!
//! `section_length` counts the bytes after itself, the CRC included.
use vstd::prelude::*;

use crate::bytes::{be16_at, be32_at, low12, read_be16, read_be32, read_low12};
use crate::error::{truncated, TsError};
use crate::psi::crc::{crc_of, mpeg2_crc32};

verus! {

/// Largest section: three bytes and a `section_length` of at most 1021.
pub const MAX_PSI_SECTION_LEN: usize = 1024;

/// The fields of a long-form header that tables hand on.
#[derive(Debug, Clone, Copy, PartialEq, Eq)]
pub struct SectionHeader {
    /// `table_id_extension`.
    pub table_id_extension: u16,
    /// 5-bit `version_number`.
    pub version_number: u8,
    /// `current_next_indicator`.
    pub current_next_indicator: bool,
    /// `section_number`.
    pub section_number: u8,
    /// `last_section_number`.
    pub last_section_number: u8,
}

/// Size that the header of section `s` announces: three bytes and
/// `section_length`.
pub open spec fn section_total(s: Seq<u8>) -> int {
    3 + low12(s[1], s[2])
}

/// The error for a section of another table.
pub open spec fn wrong_table() -> TsError {
    TsError::Unsupported("PSI table_id does not match expected value")
}

/// The CRC over `s` does not match the four bytes at its announced end.
pub open spec fn crc_broken(s: Seq<u8>) -> bool {
    crc_of(s.subrange(0, section_total(s) - 4)) != be32_at(s, section_total(s) - 4)
}

/// The error of a section whose CRC does not match.
pub open spec fn crc_error(s: Seq<u8>) -> TsError {
    TsError::PsiCrcMismatch {
        header: be32_at(s, section_total(s) - 4),
        computed: crc_of(s.subrange(0, section_total(s) - 4)),
    }
}

/// Why `s` is not a long-form section of table `table_id`, if it is not.
pub open spec fn section_error(s: Seq<u8>, table_id: u8) -> Option<TsError> {
    let n = s.len() as int;
    let total = section_total(s);
    if n < 12 {
        Some(truncated("PSI section header", n, 12))
    } else if s[0] != table_id {
        Some(wrong_table())
    } else if total > n {
        Some(TsError::SectionLengthOverrun { claimed: (total - 3) as usize, have: (n - 3) as usize })
    } else if total < 4 {
        Some(truncated("PSI section header", total, 12))
    } else if crc_broken(s) {
        Some(crc_error(s))
    } else if total < 12 {
        Some(truncated("PSI section header", total, 12))
    } else {
        None
    }
}

/// The header fields of section `s`.
pub open spec fn section_header(s: Seq<u8>) -> SectionHeader {
    SectionHeader {
        table_id_extension: be16_at(s, 3),
        version_number: (s[5] >> 1) & 0x1F,
        current_next_indicator: s[5] & 1 != 0,
        section_number: s[6],
        last_section_number: s[7],
    }
}

/// The bytes between the header and the CRC of section `s`.
pub open spec fn section_body(s: Seq<u8>) -> Seq<u8> {
    s.subrange(8, section_total(s) - 4)
}

/// Check length, table and CRC of a long-form section; hand out its header and
/// body.
pub(crate) fn parse_section_header(section: &[u8], expected_table_id: u8) -> (r: Result<
    (SectionHeader, &[u8]),
    TsError,
>)
    ensures
        match r {
            Ok((header, body)) => {
                &&& section_error(section@, expected_table_id) is None
                &&& header == section_header(section@)
                &&& body@ == section_body(section@)
                &&& body@.len() <= 4095
            },
            Err(e) => section_error(section@, expected_table_id) == Some(e),
        },
{
    if section.len() < 12 {
        return Err(
            TsError::Truncated { what: "PSI section header", have: section.len(), need: 12 },
        );
    }
    if section[0] != expected_table_id {
        return Err(TsError::Unsupported("PSI table_id does not match expected value"));
    }
    let section_length: usize = read_low12(section, 1);
    let total: usize = 3 + section_length;
    if total > section.len() {
        return Err(
            TsError::SectionLengthOverrun { claimed: section_length, have: section.len() - 3 },
        );
    }
    if total < 4 {
        return Err(TsError::Truncated { what: "PSI section header", have: total, need: 12 });
    }
    let crc_pos: usize = total - 4;
    let computed: u32 = mpeg2_crc32(&section[0..crc_pos]);
    let header_crc: u32 = read_be32(section, crc_pos);
    if computed != header_crc {
        return Err(TsError::PsiCrcMismatch { header: header_crc, computed });
    }
    if total < 12 {
        return Err(TsError::Truncated { what: "PSI section header", have: total, need: 12 });
    }
    Ok(
        (
            SectionHeader {
                table_id_extension: read_be16(section, 3),
                version_number: (section[5] >> 1) & 0x1F,
                current_next_indicator: section[5] & 1 != 0,
                section_number: section[6],
                last_section_number: section[7],
            },
            &section[8..crc_pos],
        ),
    )
}

/// Why `s` is not a short-form section, if it is not.
pub open spec fn short_section_error(s: Seq<u8>) -> Option<TsError> {
    let n = s.len() as int;
    if n < 3 {
        Some(truncated("short PSI section header", n, 3))
    } else if section_total(s) > n {
        Some(
            TsError::SectionLengthOverrun {
                claimed: (section_total(s) - 3) as usize,
                have: (n - 3) as usize,
            },
        )
    } else {
        None
    }
}

/// Check the length of a short-form section; hand out the bytes after
/// `section_length`.
pub(crate) fn parse_short_section_body(section: &[u8]) -> (r: Result<&[u8], TsError>)
    ensures
        match r {
            Ok(body) => {
                &&& short_section_error(section@) is None
                &&& body@ == section@.subrange(3, section_total(section@))
                &&& body@.len() <= 4095
            },
            Err(e) => short_section_error(section@) == Some(e),
        },
{
    if section.len() < 3 {
        return Err(
            TsError::Truncated { what: "short PSI section header", have: section.len(), need: 3 },
        );
    }
    let section_length: usize = read_low12(section, 1);
    let total: usize = 3 + section_length;
    if total > section.len() {
        return Err(
            TsError::SectionLengthOverrun { claimed: section_length, have: section.len() - 3 },
        );
    }
    Ok(&section[3..total])
}

/// Walk over the sections of one payload.
#[derive(Debug)]
pub struct SectionIter<'a> {
    rest: &'a [u8],
}

/// `s` starts with a whole section: not stuffing, and as long as announced.
pub open spec fn starts_with_section(s: Seq<u8>) -> bool {
    s.len() >= 3 && s[0] != 0xFF && section_total(s) <= s.len()
}

/// The section bytes of a payload that starts with a pointer field.
pub open spec fn after_pointer(payload: Seq<u8>) -> Seq<u8> {
    if payload.len() == 0 || 1 + payload[0] > payload.len() {
        Seq::empty()
    } else {
        payload.skip(1 + payload[0] as int)
    }
}

impl<'a> SectionIter<'a> {
    /// Bytes not walked over yet.
    pub closed spec fn remaining(self) -> Seq<u8> {
        self.rest@
    }

    /// The next section, from `table_id` through the CRC; `None` at stuffing or
    /// when no whole section is left.
    pub fn next(&mut self) -> (r: Option<&'a [u8]>)
        ensures
            match r {
                Some(section) => {
                    let total = section_total(old(self).remaining());
                    &&& starts_with_section(old(self).remaining())
                    &&& section@ == old(self).remaining().take(total)
                    &&& final(self).remaining() == old(self).remaining().skip(total)
                },
                None => !starts_with_section(old(self).remaining()) && final(self).remaining()
                    == old(self).remaining(),
            },
    {
        if self.rest.len() < 3 || self.rest[0] == 0xFF {
            return None;
        }
        let total: usize = 3 + read_low12(self.rest, 1);
        if total > self.rest.len() {
            return None;
        }
        let head: &'a [u8] = &self.rest[0..total];
        assert(head@ =~= self.rest@.take(total as int));
        self.rest = &self.rest[total..self.rest.len()];
        assert(self.rest@ =~= old(self).rest@.skip(total as int));
        Some(head)
    }
}

/// Walk the sections in the payload of a packet that starts a unit. The first
/// byte is the pointer field; a 0xFF `table_id` ends the walk.
pub fn iter_sections(ts_payload: &[u8]) -> (r: SectionIter<'_>)
    ensures
        r.remaining() == after_pointer(ts_payload@),
{
    if ts_payload.len() == 0 {
        assert(ts_payload@ =~= Seq::<u8>::empty());
        return SectionIter { rest: ts_payload };
    }
    let start: usize = 1 + ts_payload[0] as usize;
    if start > ts_payload.len() {
        let none: &[u8] = &ts_payload[0..0];
        assert(none@ =~= Seq::<u8>::empty());
        return SectionIter { rest: none };
    }
    let rest: &[u8] = &ts_payload[start..ts_payload.len()];
    assert(rest@ =~= ts_payload@.skip(start as int));
    SectionIter { rest }
}

} // verus!
