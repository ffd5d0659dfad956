//! The program-specific tables: PAT, PMT, CAT, TSDT.
use vstd::prelude::*;
use vstd::slice::slice_to_vec;

use crate::bytes::{be16_at, low12, low13, read_be16, read_low12, read_low13};
use crate::descriptor::{iter_descriptors, DescriptorIter};
use crate::error::{truncated, TsError};
use crate::psi::entries::{entries_of, loop_entries, overrun, split_loop, EntrySlices, LoopEntry};
use crate::psi::section::{
    parse_section_header, section_body, section_error, section_header, SectionHeader,
};

verus! {

/// PAT `table_id`.
pub const PAT_TABLE_ID: u8 = 0x00;

/// CAT `table_id`.
pub const CAT_TABLE_ID: u8 = 0x01;

/// PMT `table_id`.
pub const PMT_TABLE_ID: u8 = 0x02;

/// TSDT `table_id`.
pub const TSDT_TABLE_ID: u8 = 0x03;

/// PID of the PAT.
pub const PAT_PID: u16 = 0x0000;

/// PID of the CAT.
pub const CAT_PID: u16 = 0x0001;

/// PID of the TSDT.
pub const TSDT_PID: u16 = 0x0002;

/// Program Association Table.
#[derive(Debug, Default, Clone)]
pub struct ProgramAssociationTable {
    /// `transport_stream_id`, the table's `table_id_extension`.
    pub transport_stream_id: u16,
    /// 5-bit `version_number`.
    pub version_number: u8,
    /// `current_next_indicator`.
    pub current_next_indicator: bool,
    /// `section_number`.
    pub section_number: u8,
    /// `last_section_number`.
    pub last_section_number: u8,
    /// `(program_number, PID)` pairs. Program 0 names the network PID, any
    /// other one the PID of that program's PMT.
    pub programs: Vec<(u16, u16)>,
}

/// The `(program_number, PID)` pairs of a PAT body: four bytes each, a shorter
/// rest ignored.
pub open spec fn pat_programs(body: Seq<u8>) -> Seq<(u16, u16)> {
    Seq::new(
        body.len() / 4,
        |i: int| (be16_at(body, 4 * i), low13(body[4 * i + 2], body[4 * i + 3])),
    )
}

impl ProgramAssociationTable {
    /// `self` carries the header fields `h` and the pairs `programs`.
    pub open spec fn holds(self, h: SectionHeader, programs: Seq<(u16, u16)>) -> bool {
        &&& self.transport_stream_id == h.table_id_extension
        &&& self.version_number == h.version_number
        &&& self.current_next_indicator == h.current_next_indicator
        &&& self.section_number == h.section_number
        &&& self.last_section_number == h.last_section_number
        &&& self.programs@ == programs
    }

    /// Parse one PAT section, from `table_id` through the CRC.
    pub fn parse(section: &[u8]) -> (r: Result<Self, TsError>)
        ensures
            match r {
                Ok(t) => section_error(section@, PAT_TABLE_ID) is None && t.holds(
                    section_header(section@),
                    pat_programs(section_body(section@)),
                ),
                Err(e) => section_error(section@, PAT_TABLE_ID) == Some(e),
            },
    {
        let (hdr, body): (SectionHeader, &[u8]) = parse_section_header(section, PAT_TABLE_ID)?;
        let mut programs: Vec<(u16, u16)> = Vec::new();
        let mut i: usize = 0;
        while body.len() - i >= 4
            invariant
                body@.len() <= 4095,
                i <= body@.len(),
                i == 4 * programs@.len(),
                forall|j: int|
                    0 <= j < programs@.len() ==> #[trigger] programs@[j] == pat_programs(body@)[j],
            decreases body@.len() - i,
        {
            programs.push((read_be16(body, i), read_low13(body, i + 2)));
            i += 4;
        }
        assert(programs@ =~= pat_programs(body@));
        Ok(
            ProgramAssociationTable {
                transport_stream_id: hdr.table_id_extension,
                version_number: hdr.version_number,
                current_next_indicator: hdr.current_next_indicator,
                section_number: hdr.section_number,
                last_section_number: hdr.last_section_number,
                programs,
            },
        )
    }
}

/// One elementary stream of a PMT.
#[derive(Debug, Clone)]
pub struct PmtStream {
    /// `stream_type`.
    pub stream_type: u8,
    /// 13-bit PID of the stream.
    pub elementary_pid: u16,
    /// Bytes of the stream's descriptor loop.
    pub descriptors: Vec<u8>,
}

impl PmtStream {
    /// `self` is what loop entry `e` says.
    pub open spec fn reads(self, e: LoopEntry) -> bool {
        &&& self.stream_type == e.head[0]
        &&& self.elementary_pid == low13(e.head[1], e.head[2])
        &&& self.descriptors@ == e.descriptors
    }

    /// Walk the stream's descriptor loop.
    pub fn iter_descriptors(&self) -> (r: DescriptorIter<'_>)
        ensures
            r.remaining() == self.descriptors@,
    {
        iter_descriptors(self.descriptors.as_slice())
    }
}

/// Program Map Table of one program.
#[derive(Debug, Default, Clone)]
pub struct ProgramMapTable {
    /// Program number, the table's `table_id_extension`.
    pub program_number: u16,
    /// 5-bit `version_number`.
    pub version_number: u8,
    /// `current_next_indicator`.
    pub current_next_indicator: bool,
    /// 13-bit PID that carries the program's PCR.
    pub pcr_pid: u16,
    /// Bytes of the program's descriptor loop.
    pub program_info: Vec<u8>,
    /// The streams, in order.
    pub streams: Vec<PmtStream>,
}

/// `program_info_length` of a PMT body.
pub open spec fn pmt_info_len(body: Seq<u8>) -> int {
    low12(body[2], body[3]) as int
}

/// The stream loop of a PMT body.
pub open spec fn pmt_loop(body: Seq<u8>) -> Seq<u8> {
    body.skip(4 + pmt_info_len(body))
}

/// Why `s` is not a PMT section, if it is not.
pub open spec fn pmt_error(s: Seq<u8>) -> Option<TsError> {
    let body = section_body(s);
    if section_error(s, PMT_TABLE_ID) is Some {
        section_error(s, PMT_TABLE_ID)
    } else if body.len() < 4 {
        Some(truncated("PMT body", body.len() as int, 4))
    } else if 4 + pmt_info_len(body) > body.len() {
        Some(overrun(pmt_info_len(body), body.len() - 4))
    } else {
        match loop_entries(pmt_loop(body), 5) {
            Ok(_) => None,
            Err(e) => Some(e),
        }
    }
}

impl ProgramMapTable {
    /// `self` is what the valid PMT section `s` says.
    pub open spec fn reads(self, s: Seq<u8>) -> bool {
        let h = section_header(s);
        let body = section_body(s);
        let entries = loop_entries(pmt_loop(body), 5)->Ok_0;
        &&& self.program_number == h.table_id_extension
        &&& self.version_number == h.version_number
        &&& self.current_next_indicator == h.current_next_indicator
        &&& self.pcr_pid == low13(body[0], body[1])
        &&& self.program_info@ == body.subrange(4, 4 + pmt_info_len(body))
        &&& self.streams@.len() == entries.len()
        &&& forall|i: int| 0 <= i < entries.len() ==> (#[trigger] self.streams@[i]).reads(entries[i])
    }

    /// Walk the program's descriptor loop.
    pub fn iter_program_descriptors(&self) -> (r: DescriptorIter<'_>)
        ensures
            r.remaining() == self.program_info@,
    {
        iter_descriptors(self.program_info.as_slice())
    }

    /// Parse one PMT section, from `table_id` through the CRC.
    pub fn parse(section: &[u8]) -> (r: Result<Self, TsError>)
        ensures
            match r {
                Ok(t) => pmt_error(section@) is None && t.reads(section@),
                Err(e) => pmt_error(section@) == Some(e),
            },
    {
        let (hdr, body): (SectionHeader, &[u8]) = parse_section_header(section, PMT_TABLE_ID)?;
        if body.len() < 4 {
            return Err(TsError::Truncated { what: "PMT body", have: body.len(), need: 4 });
        }
        let info_len: usize = read_low12(body, 2);
        if info_len > body.len() - 4 {
            return Err(TsError::SectionLengthOverrun { claimed: info_len, have: body.len() - 4 });
        }
        let program_info: Vec<u8> = slice_to_vec(&body[4..4 + info_len]);
        let rest: &[u8] = &body[4 + info_len..body.len()];
        assert(rest@ =~= pmt_loop(body@));
        let entries: Vec<EntrySlices<'_>> = split_loop(rest, 5)?;
        let mut streams: Vec<PmtStream> = Vec::new();
        let mut i: usize = 0;
        while i < entries.len()
            invariant
                i <= entries@.len(),
                i == streams@.len(),
                forall|j: int|
                    0 <= j < entries@.len() ==> (#[trigger] entries@[j]).head@.len() == 5,
                forall|j: int|
                    0 <= j < i ==> (#[trigger] streams@[j]).reads(entries_of(entries@)[j]),
            decreases entries@.len() - i,
        {
            let e: EntrySlices<'_> = entries[i];
            streams.push(
                PmtStream {
                    stream_type: e.head[0],
                    elementary_pid: read_low13(e.head, 1),
                    descriptors: slice_to_vec(e.descriptors),
                },
            );
            i += 1;
        }
        Ok(
            ProgramMapTable {
                program_number: hdr.table_id_extension,
                version_number: hdr.version_number,
                current_next_indicator: hdr.current_next_indicator,
                pcr_pid: read_low13(body, 0),
                program_info,
                streams,
            },
        )
    }
}

/// Conditional Access Table: nothing but a descriptor loop.
#[derive(Debug, Default, Clone)]
pub struct ConditionalAccessTable {
    /// 5-bit `version_number`.
    pub version_number: u8,
    /// `current_next_indicator`.
    pub current_next_indicator: bool,
    /// `section_number`.
    pub section_number: u8,
    /// `last_section_number`.
    pub last_section_number: u8,
    /// Bytes of the descriptor loop.
    pub descriptors: Vec<u8>,
}

impl ConditionalAccessTable {
    /// `self` carries the header fields `h` and the descriptor bytes `body`.
    pub open spec fn holds(self, h: SectionHeader, body: Seq<u8>) -> bool {
        &&& self.version_number == h.version_number
        &&& self.current_next_indicator == h.current_next_indicator
        &&& self.section_number == h.section_number
        &&& self.last_section_number == h.last_section_number
        &&& self.descriptors@ == body
    }

    /// Parse one CAT section, from `table_id` through the CRC.
    pub fn parse(section: &[u8]) -> (r: Result<Self, TsError>)
        ensures
            match r {
                Ok(t) => section_error(section@, CAT_TABLE_ID) is None && t.holds(
                    section_header(section@),
                    section_body(section@),
                ),
                Err(e) => section_error(section@, CAT_TABLE_ID) == Some(e),
            },
    {
        let (hdr, body): (SectionHeader, &[u8]) = parse_section_header(section, CAT_TABLE_ID)?;
        Ok(
            ConditionalAccessTable {
                version_number: hdr.version_number,
                current_next_indicator: hdr.current_next_indicator,
                section_number: hdr.section_number,
                last_section_number: hdr.last_section_number,
                descriptors: slice_to_vec(body),
            },
        )
    }

    /// Walk the descriptor loop.
    pub fn iter_descriptors(&self) -> (r: DescriptorIter<'_>)
        ensures
            r.remaining() == self.descriptors@,
    {
        iter_descriptors(self.descriptors.as_slice())
    }
}

/// Transport Stream Description Table: descriptors that apply to the whole
/// stream.
#[derive(Debug, Default, Clone)]
pub struct TransportStreamDescriptionTable {
    /// 5-bit `version_number`.
    pub version_number: u8,
    /// `current_next_indicator`.
    pub current_next_indicator: bool,
    /// `section_number`.
    pub section_number: u8,
    /// `last_section_number`.
    pub last_section_number: u8,
    /// Bytes of the descriptor loop.
    pub descriptors: Vec<u8>,
}

impl TransportStreamDescriptionTable {
    /// `self` carries the header fields `h` and the descriptor bytes `body`.
    pub open spec fn holds(self, h: SectionHeader, body: Seq<u8>) -> bool {
        &&& self.version_number == h.version_number
        &&& self.current_next_indicator == h.current_next_indicator
        &&& self.section_number == h.section_number
        &&& self.last_section_number == h.last_section_number
        &&& self.descriptors@ == body
    }

    /// Parse one TSDT section, from `table_id` through the CRC.
    pub fn parse(section: &[u8]) -> (r: Result<Self, TsError>)
        ensures
            match r {
                Ok(t) => section_error(section@, TSDT_TABLE_ID) is None && t.holds(
                    section_header(section@),
                    section_body(section@),
                ),
                Err(e) => section_error(section@, TSDT_TABLE_ID) == Some(e),
            },
    {
        let (hdr, body): (SectionHeader, &[u8]) = parse_section_header(section, TSDT_TABLE_ID)?;
        Ok(
            TransportStreamDescriptionTable {
                version_number: hdr.version_number,
                current_next_indicator: hdr.current_next_indicator,
                section_number: hdr.section_number,
                last_section_number: hdr.last_section_number,
                descriptors: slice_to_vec(body),
            },
        )
    }

    /// Walk the descriptor loop.
    pub fn iter_descriptors(&self) -> (r: DescriptorIter<'_>)
        ensures
            r.remaining() == self.descriptors@,
    {
        iter_descriptors(self.descriptors.as_slice())
    }
}

} // verus!
