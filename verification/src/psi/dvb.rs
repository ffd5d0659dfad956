//! DVB service information: NIT, SDT and EIT.
use vstd::prelude::*;
use vstd::slice::slice_to_vec;

use crate::bytes::{be16_at, low12, read_be16, read_low12};
use crate::descriptor::{iter_descriptors, DescriptorIter};
use crate::error::{truncated, TsError};
use crate::psi::entries::{entries_of, loop_entries, overrun, split_loop, EntrySlices, LoopEntry};
use crate::psi::section::{
    parse_section_header, section_body, section_error, section_header, wrong_table, SectionHeader,
};
use crate::psi::time::{
    bcd_byte, bcd_value, decode_utc_time, utc_time_spec, EitDateTime, EitDuration,
};

verus! {

/// SDT `table_id` of the actual transport stream.
pub const SDT_ACTUAL_TABLE_ID: u8 = 0x42;

/// SDT `table_id` of other transport streams.
pub const SDT_OTHER_TABLE_ID: u8 = 0x46;

/// EIT present/following `table_id` of the actual transport stream.
pub const EIT_ACTUAL_PF_TABLE_ID: u8 = 0x4E;

/// EIT present/following `table_id` of other transport streams.
pub const EIT_OTHER_PF_TABLE_ID: u8 = 0x4F;

/// First EIT schedule `table_id` of the actual transport stream.
pub const EIT_ACTUAL_SCHEDULE_FIRST: u8 = 0x50;

/// Last EIT schedule `table_id` of the actual transport stream.
pub const EIT_ACTUAL_SCHEDULE_LAST: u8 = 0x5F;

/// First EIT schedule `table_id` of other transport streams.
pub const EIT_OTHER_SCHEDULE_FIRST: u8 = 0x60;

/// Last EIT schedule `table_id` of other transport streams.
pub const EIT_OTHER_SCHEDULE_LAST: u8 = 0x6F;

/// NIT `table_id` of the actual network.
pub const NIT_ACTUAL_TABLE_ID: u8 = 0x40;

/// NIT `table_id` of other networks.
pub const NIT_OTHER_TABLE_ID: u8 = 0x41;

/// PID of SDT, BAT and ST.
pub const SDT_PID: u16 = 0x0011;

/// PID of the EIT.
pub const EIT_PID: u16 = 0x0012;

/// PID of the NIT.
pub const NIT_PID: u16 = 0x0010;

/// One transport stream of a NIT.
#[derive(Debug, Default, Clone)]
pub struct NitTransportStream {
    /// `transport_stream_id`.
    pub transport_stream_id: u16,
    /// `original_network_id`.
    pub original_network_id: u16,
    /// Bytes of the entry's descriptor loop.
    pub descriptors: Vec<u8>,
}

impl NitTransportStream {
    /// `self` is what loop entry `e` says.
    pub open spec fn reads(self, e: LoopEntry) -> bool {
        &&& self.transport_stream_id == be16_at(e.head, 0)
        &&& self.original_network_id == be16_at(e.head, 2)
        &&& self.descriptors@ == e.descriptors
    }

    /// Walk the entry's descriptor loop.
    pub fn iter_descriptors(&self) -> (r: DescriptorIter<'_>)
        ensures
            r.remaining() == self.descriptors@,
    {
        iter_descriptors(self.descriptors.as_slice())
    }
}

/// Network Information Table.
#[derive(Debug, Default, Clone)]
pub struct NetworkInformationTable {
    /// `network_id`, the table's `table_id_extension`.
    pub network_id: u16,
    /// The section describes a network other than the one that carries it.
    pub other_network: bool,
    /// 5-bit `version_number`.
    pub version_number: u8,
    /// `current_next_indicator`.
    pub current_next_indicator: bool,
    /// `section_number`.
    pub section_number: u8,
    /// `last_section_number`.
    pub last_section_number: u8,
    /// Bytes of the network's descriptor loop.
    pub descriptors: Vec<u8>,
    /// The transport streams, in order.
    pub transport_streams: Vec<NitTransportStream>,
}

/// The `table_id` is one of the two of the NIT.
pub open spec fn nit_id(table_id: u8) -> bool {
    table_id == NIT_ACTUAL_TABLE_ID || table_id == NIT_OTHER_TABLE_ID
}

/// Where the transport stream loop of a NIT body starts.
pub open spec fn nit_loop_at(body: Seq<u8>) -> int {
    4 + low12(body[0], body[1])
}

/// Announced length of the transport stream loop of a NIT body.
pub open spec fn nit_loop_len(body: Seq<u8>) -> int {
    low12(body[nit_loop_at(body) - 2], body[nit_loop_at(body) - 1]) as int
}

/// The transport stream loop of a NIT body.
pub open spec fn nit_loop(body: Seq<u8>) -> Seq<u8> {
    body.subrange(nit_loop_at(body), nit_loop_at(body) + nit_loop_len(body))
}

/// Why `s` is not a NIT section, if it is not.
pub open spec fn nit_error(s: Seq<u8>) -> Option<TsError> {
    let body = section_body(s);
    let n = body.len() as int;
    if s.len() == 0 || !nit_id(s[0]) {
        Some(wrong_table())
    } else if section_error(s, s[0]) is Some {
        section_error(s, s[0])
    } else if n < 2 {
        Some(truncated("NIT body", n, 2))
    } else if nit_loop_at(body) - 2 > n {
        Some(overrun(nit_loop_at(body) - 4, n - 2))
    } else if nit_loop_at(body) > n {
        Some(truncated("NIT transport_stream_loop_length", n - (nit_loop_at(body) - 2), 2))
    } else if nit_loop_at(body) + nit_loop_len(body) > n {
        Some(overrun(nit_loop_len(body), n - nit_loop_at(body)))
    } else {
        match loop_entries(nit_loop(body), 6) {
            Ok(_) => None,
            Err(e) => Some(e),
        }
    }
}

impl NetworkInformationTable {
    /// `self` is what the valid NIT section `s` says.
    pub open spec fn reads(self, s: Seq<u8>) -> bool {
        let h = section_header(s);
        let body = section_body(s);
        let entries = loop_entries(nit_loop(body), 6)->Ok_0;
        &&& self.network_id == h.table_id_extension
        &&& self.other_network == (s[0] == NIT_OTHER_TABLE_ID)
        &&& self.version_number == h.version_number
        &&& self.current_next_indicator == h.current_next_indicator
        &&& self.section_number == h.section_number
        &&& self.last_section_number == h.last_section_number
        &&& self.descriptors@ == body.subrange(2, nit_loop_at(body) - 2)
        &&& self.transport_streams@.len() == entries.len()
        &&& forall|i: int|
            0 <= i < entries.len() ==> (#[trigger] self.transport_streams@[i]).reads(entries[i])
    }

    /// The `table_id` is one of the two of the NIT.
    pub fn is_nit_table_id(table_id: u8) -> (r: bool)
        ensures
            r == nit_id(table_id),
    {
        table_id == NIT_ACTUAL_TABLE_ID || table_id == NIT_OTHER_TABLE_ID
    }

    /// Parse one NIT section, from `table_id` through the CRC.
    pub fn parse(section: &[u8]) -> (r: Result<Self, TsError>)
        ensures
            match r {
                Ok(t) => nit_error(section@) is None && t.reads(section@),
                Err(e) => nit_error(section@) == Some(e),
            },
    {
        if section.len() == 0 || !Self::is_nit_table_id(section[0]) {
            return Err(TsError::Unsupported("PSI table_id does not match expected value"));
        }
        let (hdr, body): (SectionHeader, &[u8]) = parse_section_header(section, section[0])?;
        if body.len() < 2 {
            return Err(TsError::Truncated { what: "NIT body", have: body.len(), need: 2 });
        }
        let info_len: usize = read_low12(body, 0);
        if info_len > body.len() - 2 {
            return Err(TsError::SectionLengthOverrun { claimed: info_len, have: body.len() - 2 });
        }
        let descriptors: Vec<u8> = slice_to_vec(&body[2..2 + info_len]);
        let left: usize = body.len() - 2 - info_len;
        if left < 2 {
            return Err(
                TsError::Truncated {
                    what: "NIT transport_stream_loop_length",
                    have: left,
                    need: 2,
                },
            );
        }
        let loop_at: usize = 4 + info_len;
        let loop_len: usize = read_low12(body, loop_at - 2);
        if loop_len > left - 2 {
            return Err(TsError::SectionLengthOverrun { claimed: loop_len, have: left - 2 });
        }
        let entries: Vec<EntrySlices<'_>> = split_loop(&body[loop_at..loop_at + loop_len], 6)?;
        let mut transport_streams: Vec<NitTransportStream> = Vec::new();
        let mut i: usize = 0;
        while i < entries.len()
            invariant
                i <= entries@.len(),
                i == transport_streams@.len(),
                forall|j: int|
                    0 <= j < entries@.len() ==> (#[trigger] entries@[j]).head@.len() == 6,
                forall|j: int|
                    0 <= j < i ==> (#[trigger] transport_streams@[j]).reads(
                        entries_of(entries@)[j],
                    ),
            decreases entries@.len() - i,
        {
            let e: EntrySlices<'_> = entries[i];
            transport_streams.push(
                NitTransportStream {
                    transport_stream_id: read_be16(e.head, 0),
                    original_network_id: read_be16(e.head, 2),
                    descriptors: slice_to_vec(e.descriptors),
                },
            );
            i += 1;
        }
        Ok(
            NetworkInformationTable {
                network_id: hdr.table_id_extension,
                other_network: section[0] == NIT_OTHER_TABLE_ID,
                version_number: hdr.version_number,
                current_next_indicator: hdr.current_next_indicator,
                section_number: hdr.section_number,
                last_section_number: hdr.last_section_number,
                descriptors,
                transport_streams,
            },
        )
    }

    /// Walk the network's descriptor loop.
    pub fn iter_descriptors(&self) -> (r: DescriptorIter<'_>)
        ensures
            r.remaining() == self.descriptors@,
    {
        iter_descriptors(self.descriptors.as_slice())
    }
}

/// Running status of a service or event.
#[derive(Debug, Clone, Copy, PartialEq, Eq)]
pub enum RunningStatus {
    /// 0: undefined.
    Undefined,
    /// 1: not running.
    NotRunning,
    /// 2: starts in a few seconds.
    StartsSoon,
    /// 3: pausing.
    Pausing,
    /// 4: running.
    Running,
    /// 5: off air.
    OffAir,
    /// 6 and 7: reserved; the value.
    Reserved(u8),
}

impl RunningStatus {
    /// The status with the 3-bit value `v`.
    pub open spec fn coded(v: u8) -> RunningStatus {
        match v {
            0 => RunningStatus::Undefined,
            1 => RunningStatus::NotRunning,
            2 => RunningStatus::StartsSoon,
            3 => RunningStatus::Pausing,
            4 => RunningStatus::Running,
            5 => RunningStatus::OffAir,
            other => RunningStatus::Reserved(other),
        }
    }

    /// The status coded by the low three bits of `value`.
    pub fn from_bits(value: u8) -> (r: Self)
        ensures
            r == Self::coded(value & 7),
    {
        match value & 7 {
            0 => RunningStatus::Undefined,
            1 => RunningStatus::NotRunning,
            2 => RunningStatus::StartsSoon,
            3 => RunningStatus::Pausing,
            4 => RunningStatus::Running,
            5 => RunningStatus::OffAir,
            other => RunningStatus::Reserved(other),
        }
    }
}

/// One service of an SDT.
#[derive(Debug, Clone)]
pub struct SdtService {
    /// `service_id`: the program number of the service's PMT.
    pub service_id: u16,
    /// `EIT_schedule_flag`.
    pub eit_schedule_flag: bool,
    /// `EIT_present_following_flag`.
    pub eit_present_following_flag: bool,
    /// `running_status`.
    pub running_status: RunningStatus,
    /// `free_CA_mode`: a component stream may be scrambled.
    pub free_ca_mode: bool,
    /// Bytes of the service's descriptor loop.
    pub descriptors: Vec<u8>,
}

impl SdtService {
    /// `self` is what loop entry `e` says.
    pub open spec fn reads(self, e: LoopEntry) -> bool {
        &&& self.service_id == be16_at(e.head, 0)
        &&& self.eit_schedule_flag == (e.head[2] & 2 != 0)
        &&& self.eit_present_following_flag == (e.head[2] & 1 != 0)
        &&& self.running_status == RunningStatus::coded((e.head[3] >> 5) & 7)
        &&& self.free_ca_mode == (e.head[3] & 0x10 != 0)
        &&& self.descriptors@ == e.descriptors
    }

    /// Walk the service's descriptor loop.
    pub fn iter_descriptors(&self) -> (r: DescriptorIter<'_>)
        ensures
            r.remaining() == self.descriptors@,
    {
        iter_descriptors(self.descriptors.as_slice())
    }
}

/// Service Description Table.
#[derive(Debug, Default, Clone)]
pub struct ServiceDescriptionTable {
    /// `transport_stream_id`, the table's `table_id_extension`.
    pub transport_stream_id: u16,
    /// The section describes a transport stream other than its own.
    pub other_transport_stream: bool,
    /// 5-bit `version_number`.
    pub version_number: u8,
    /// `current_next_indicator`.
    pub current_next_indicator: bool,
    /// `section_number`.
    pub section_number: u8,
    /// `last_section_number`.
    pub last_section_number: u8,
    /// `original_network_id`.
    pub original_network_id: u16,
    /// The services, in order.
    pub services: Vec<SdtService>,
}

/// Why `s` is not an SDT section, if it is not.
pub open spec fn sdt_error(s: Seq<u8>) -> Option<TsError> {
    let body = section_body(s);
    if s.len() == 0 || (s[0] != SDT_ACTUAL_TABLE_ID && s[0] != SDT_OTHER_TABLE_ID) {
        Some(wrong_table())
    } else if section_error(s, s[0]) is Some {
        section_error(s, s[0])
    } else if body.len() < 3 {
        Some(truncated("SDT body", body.len() as int, 3))
    } else {
        match loop_entries(body.skip(3), 5) {
            Ok(_) => None,
            Err(e) => Some(e),
        }
    }
}

impl ServiceDescriptionTable {
    /// `self` is what the valid SDT section `s` says.
    pub open spec fn reads(self, s: Seq<u8>) -> bool {
        let h = section_header(s);
        let body = section_body(s);
        let entries = loop_entries(body.skip(3), 5)->Ok_0;
        &&& self.transport_stream_id == h.table_id_extension
        &&& self.other_transport_stream == (s[0] == SDT_OTHER_TABLE_ID)
        &&& self.version_number == h.version_number
        &&& self.current_next_indicator == h.current_next_indicator
        &&& self.section_number == h.section_number
        &&& self.last_section_number == h.last_section_number
        &&& self.original_network_id == be16_at(body, 0)
        &&& self.services@.len() == entries.len()
        &&& forall|i: int|
            0 <= i < entries.len() ==> (#[trigger] self.services@[i]).reads(entries[i])
    }

    /// Parse one SDT section, from `table_id` through the CRC.
    pub fn parse(section: &[u8]) -> (r: Result<Self, TsError>)
        ensures
            match r {
                Ok(t) => sdt_error(section@) is None && t.reads(section@),
                Err(e) => sdt_error(section@) == Some(e),
            },
    {
        if section.len() == 0 || (section[0] != SDT_ACTUAL_TABLE_ID && section[0]
            != SDT_OTHER_TABLE_ID) {
            return Err(TsError::Unsupported("PSI table_id does not match expected value"));
        }
        let (hdr, body): (SectionHeader, &[u8]) = parse_section_header(section, section[0])?;
        if body.len() < 3 {
            return Err(TsError::Truncated { what: "SDT body", have: body.len(), need: 3 });
        }
        let rest: &[u8] = &body[3..body.len()];
        assert(rest@ =~= body@.skip(3));
        let entries: Vec<EntrySlices<'_>> = split_loop(rest, 5)?;
        let mut services: Vec<SdtService> = Vec::new();
        let mut i: usize = 0;
        while i < entries.len()
            invariant
                i <= entries@.len(),
                i == services@.len(),
                forall|j: int|
                    0 <= j < entries@.len() ==> (#[trigger] entries@[j]).head@.len() == 5,
                forall|j: int|
                    0 <= j < i ==> (#[trigger] services@[j]).reads(entries_of(entries@)[j]),
            decreases entries@.len() - i,
        {
            let e: EntrySlices<'_> = entries[i];
            services.push(
                SdtService {
                    service_id: read_be16(e.head, 0),
                    eit_schedule_flag: e.head[2] & 2 != 0,
                    eit_present_following_flag: e.head[2] & 1 != 0,
                    running_status: RunningStatus::from_bits(e.head[3] >> 5),
                    free_ca_mode: e.head[3] & 0x10 != 0,
                    descriptors: slice_to_vec(e.descriptors),
                },
            );
            i += 1;
        }
        Ok(
            ServiceDescriptionTable {
                transport_stream_id: hdr.table_id_extension,
                other_transport_stream: section[0] == SDT_OTHER_TABLE_ID,
                version_number: hdr.version_number,
                current_next_indicator: hdr.current_next_indicator,
                section_number: hdr.section_number,
                last_section_number: hdr.last_section_number,
                original_network_id: read_be16(body, 0),
                services,
            },
        )
    }
}

/// One event of an EIT.
#[derive(Debug, Clone)]
pub struct EitEvent {
    /// `event_id`, unique within the service.
    pub event_id: u16,
    /// `start_time`; `None` for the all-ones field.
    pub start_time: Option<EitDateTime>,
    /// `duration`.
    pub duration: EitDuration,
    /// `running_status`.
    pub running_status: RunningStatus,
    /// `free_CA_mode`: a component stream may be scrambled.
    pub free_ca_mode: bool,
    /// Bytes of the event's descriptor loop.
    pub descriptors: Vec<u8>,
}

impl EitEvent {
    /// `self` is what loop entry `e` says.
    pub open spec fn reads(self, e: LoopEntry) -> bool {
        &&& self.event_id == be16_at(e.head, 0)
        &&& self.start_time == utc_time_spec(e.head.subrange(2, 7))
        &&& self.duration.hours == bcd_value(e.head[7])
        &&& self.duration.minutes == bcd_value(e.head[8])
        &&& self.duration.seconds == bcd_value(e.head[9])
        &&& self.running_status == RunningStatus::coded((e.head[10] >> 5) & 7)
        &&& self.free_ca_mode == (e.head[10] & 0x10 != 0)
        &&& self.descriptors@ == e.descriptors
    }

    /// Walk the event's descriptor loop.
    pub fn iter_descriptors(&self) -> (r: DescriptorIter<'_>)
        ensures
            r.remaining() == self.descriptors@,
    {
        iter_descriptors(self.descriptors.as_slice())
    }
}

/// Event Information Table.
#[derive(Debug, Default, Clone)]
pub struct EventInformationTable {
    /// `service_id`, the table's `table_id_extension`.
    pub service_id: u16,
    /// The section describes a transport stream other than its own.
    pub other_transport_stream: bool,
    /// The section is part of a schedule, not of present/following.
    pub schedule: bool,
    /// `table_id` of the section.
    pub table_id: u8,
    /// 5-bit `version_number`.
    pub version_number: u8,
    /// `current_next_indicator`.
    pub current_next_indicator: bool,
    /// `section_number`.
    pub section_number: u8,
    /// `last_section_number`.
    pub last_section_number: u8,
    /// `transport_stream_id`.
    pub transport_stream_id: u16,
    /// `original_network_id`.
    pub original_network_id: u16,
    /// `segment_last_section_number`.
    pub segment_last_section_number: u8,
    /// `last_table_id`.
    pub last_table_id: u8,
    /// The events, in order.
    pub events: Vec<EitEvent>,
}

/// The `table_id` is one of those of the EIT.
pub open spec fn eit_id(table_id: u8) -> bool {
    EIT_ACTUAL_PF_TABLE_ID <= table_id <= EIT_OTHER_SCHEDULE_LAST
}

/// The `table_id` is an EIT schedule's.
pub open spec fn eit_schedule_id(table_id: u8) -> bool {
    EIT_ACTUAL_SCHEDULE_FIRST <= table_id <= EIT_OTHER_SCHEDULE_LAST
}

/// The `table_id` is an EIT's of other transport streams.
pub open spec fn eit_other_id(table_id: u8) -> bool {
    table_id == EIT_OTHER_PF_TABLE_ID || EIT_OTHER_SCHEDULE_FIRST <= table_id
        <= EIT_OTHER_SCHEDULE_LAST
}

/// Why `s` is not an EIT section, if it is not.
pub open spec fn eit_error(s: Seq<u8>) -> Option<TsError> {
    let body = section_body(s);
    if s.len() == 0 || !eit_id(s[0]) {
        Some(wrong_table())
    } else if section_error(s, s[0]) is Some {
        section_error(s, s[0])
    } else if body.len() < 6 {
        Some(truncated("EIT body", body.len() as int, 6))
    } else {
        match loop_entries(body.skip(6), 12) {
            Ok(_) => None,
            Err(e) => Some(e),
        }
    }
}

impl EventInformationTable {
    /// `self` is what the valid EIT section `s` says.
    pub open spec fn reads(self, s: Seq<u8>) -> bool {
        let h = section_header(s);
        let body = section_body(s);
        let entries = loop_entries(body.skip(6), 12)->Ok_0;
        &&& self.service_id == h.table_id_extension
        &&& self.other_transport_stream == eit_other_id(s[0])
        &&& self.schedule == eit_schedule_id(s[0])
        &&& self.table_id == s[0]
        &&& self.version_number == h.version_number
        &&& self.current_next_indicator == h.current_next_indicator
        &&& self.section_number == h.section_number
        &&& self.last_section_number == h.last_section_number
        &&& self.transport_stream_id == be16_at(body, 0)
        &&& self.original_network_id == be16_at(body, 2)
        &&& self.segment_last_section_number == body[4]
        &&& self.last_table_id == body[5]
        &&& self.events@.len() == entries.len()
        &&& forall|i: int| 0 <= i < entries.len() ==> (#[trigger] self.events@[i]).reads(entries[i])
    }

    /// The `table_id` is one of those of the EIT.
    pub fn is_eit_table_id(table_id: u8) -> (r: bool)
        ensures
            r == eit_id(table_id),
    {
        EIT_ACTUAL_PF_TABLE_ID <= table_id && table_id <= EIT_OTHER_SCHEDULE_LAST
    }

    /// Parse one EIT section, from `table_id` through the CRC.
    pub fn parse(section: &[u8]) -> (r: Result<Self, TsError>)
        ensures
            match r {
                Ok(t) => eit_error(section@) is None && t.reads(section@),
                Err(e) => eit_error(section@) == Some(e),
            },
    {
        if section.len() == 0 || !Self::is_eit_table_id(section[0]) {
            return Err(TsError::Unsupported("PSI table_id does not match expected value"));
        }
        let table_id: u8 = section[0];
        let (hdr, body): (SectionHeader, &[u8]) = parse_section_header(section, table_id)?;
        if body.len() < 6 {
            return Err(TsError::Truncated { what: "EIT body", have: body.len(), need: 6 });
        }
        let rest: &[u8] = &body[6..body.len()];
        assert(rest@ =~= body@.skip(6));
        let entries: Vec<EntrySlices<'_>> = split_loop(rest, 12)?;
        let events: Vec<EitEvent> = read_events(&entries);
        Ok(
            EventInformationTable {
                service_id: hdr.table_id_extension,
                other_transport_stream: table_id == EIT_OTHER_PF_TABLE_ID || table_id
                    >= EIT_OTHER_SCHEDULE_FIRST,
                schedule: table_id >= EIT_ACTUAL_SCHEDULE_FIRST,
                table_id,
                version_number: hdr.version_number,
                current_next_indicator: hdr.current_next_indicator,
                section_number: hdr.section_number,
                last_section_number: hdr.last_section_number,
                transport_stream_id: read_be16(body, 0),
                original_network_id: read_be16(body, 2),
                segment_last_section_number: body[4],
                last_table_id: body[5],
                events,
            },
        )
    }
}

fn read_events(entries: &Vec<EntrySlices<'_>>) -> (events: Vec<EitEvent>)
    requires
        forall|j: int| 0 <= j < entries@.len() ==> (#[trigger] entries@[j]).head@.len() == 12,
    ensures
        events@.len() == entries@.len(),
        forall|j: int|
            0 <= j < entries@.len() ==> (#[trigger] events@[j]).reads(entries_of(entries@)[j]),
{
    let mut events: Vec<EitEvent> = Vec::new();
    let mut i: usize = 0;
    while i < entries.len()
        invariant
            i <= entries@.len(),
            i == events@.len(),
            forall|j: int| 0 <= j < entries@.len() ==> (#[trigger] entries@[j]).head@.len() == 12,
            forall|j: int| 0 <= j < i ==> (#[trigger] events@[j]).reads(entries_of(entries@)[j]),
        decreases entries@.len() - i,
    {
        let e: EntrySlices<'_> = entries[i];
        let h: &[u8] = e.head;
        let start: [u8; 5] = [h[2], h[3], h[4], h[5], h[6]];
        assert(start@ =~= h@.subrange(2, 7));
        events.push(
            EitEvent {
                event_id: read_be16(h, 0),
                start_time: decode_utc_time(start),
                duration: EitDuration {
                    hours: bcd_byte(h[7]),
                    minutes: bcd_byte(h[8]),
                    seconds: bcd_byte(h[9]),
                },
                running_status: RunningStatus::from_bits(h[10] >> 5),
                free_ca_mode: h[10] & 0x10 != 0,
                descriptors: slice_to_vec(e.descriptors),
            },
        );
        i += 1;
    }
    events
}

} // verus!
