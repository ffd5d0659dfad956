//! Long-form sections.
use vstd::prelude::*;

use crate::build::descriptors::{bcd_code, encode_utc_time, to_bcd, utc_time_bytes};
use crate::bytes::{be16_bytes, be32_bytes, push_be16, push_be32};
use crate::psi::crc::{crc_of, mpeg2_crc32};
use crate::psi::dvb::{
    RunningStatus, EIT_ACTUAL_PF_TABLE_ID, EIT_OTHER_PF_TABLE_ID, NIT_ACTUAL_TABLE_ID,
    NIT_OTHER_TABLE_ID, SDT_ACTUAL_TABLE_ID, SDT_OTHER_TABLE_ID,
};
use crate::psi::entries::LoopEntry;
use crate::psi::tables::{PAT_TABLE_ID, PMT_TABLE_ID};
use crate::psi::time::{EitDateTime, EitDuration};

verus! {

/// A 12-bit length below the four bits of `tag`. A longer length keeps its low
/// 12 bits.
pub open spec fn tagged_len(tag: u16, n: nat) -> u16 {
    tag | ((n % 4096) as u16)
}

/// The header and body of a section, without its CRC. `tag` holds the bits
/// above `section_length`.
pub open spec fn unsealed(table_id: u8, tag: u16, ext: u16, version: u8, body: Seq<u8>) -> Seq<u8> {
    seq![table_id] + be16_bytes(tagged_len(tag, body.len() + 9)) + be16_bytes(ext) + seq![
        0xC1 | ((version & 0x1F) << 1),
        0u8,
        0u8,
    ] + body
}

/// A section: header, body, CRC.
pub open spec fn sealed(table_id: u8, tag: u16, ext: u16, version: u8, body: Seq<u8>) -> Seq<u8> {
    unsealed(table_id, tag, ext, version, body) + be32_bytes(
        crc_of(unsealed(table_id, tag, ext, version, body)),
    )
}

/// Bits above the length of an MPEG section: syntax indicator, `0`, reserved.
pub const PSI_TAG: u16 = 0xB000;

/// Bits above the length of a DVB section: syntax indicator and reserved bits.
pub const SI_TAG: u16 = 0xF000;

/// Set bits before a 12-bit length.
pub const LEN_TAG: u16 = 0xF000;

fn pack_len(tag: u16, n: usize) -> (r: u16)
    ensures
        r == tagged_len(tag, n as nat),
{
    tag | ((n % 4096) as u16)
}

fn seal(table_id: u8, tag: u16, ext: u16, version: u8, body: &[u8]) -> (r: Vec<u8>)
    ensures
        r@ == sealed(table_id, tag, ext, version, body@),
{
    let mut out: Vec<u8> = Vec::new();
    out.push(table_id);
    push_be16(&mut out, pack_len(tag, body.len() % 4096 + 9));
    assert(tagged_len(tag, body@.len() % 4096 + 9) == tagged_len(tag, body@.len() + 9));
    push_be16(&mut out, ext);
    out.push(0xC1 | ((version & 0x1F) << 1));
    out.push(0);
    out.push(0);
    out.extend_from_slice(body);
    assert(out@ =~= unsealed(table_id, tag, ext, version, body@));
    let crc: u32 = mpeg2_crc32(out.as_slice());
    push_be32(&mut out, crc);
    out
}

/// The body of a PAT: four bytes per `(program_number, PID)`.
pub open spec fn pat_body(programs: Seq<(u16, u16)>) -> Seq<u8>
    decreases programs.len(),
{
    if programs.len() == 0 {
        Seq::empty()
    } else {
        pat_body(programs.drop_last()) + be16_bytes(programs.last().0) + be16_bytes(
            0xE000 | (programs.last().1 & 0x1FFF),
        )
    }
}

/// A PAT section that lists `programs`.
pub fn build_pat(transport_stream_id: u16, version: u8, programs: &[(u16, u16)]) -> (r: Vec<u8>)
    ensures
        r@ == sealed(PAT_TABLE_ID, PSI_TAG, transport_stream_id, version, pat_body(programs@)),
{
    let mut body: Vec<u8> = Vec::new();
    let mut i: usize = 0;
    assert(programs@.take(0) =~= Seq::<(u16, u16)>::empty());
    while i < programs.len()
        invariant
            i <= programs@.len(),
            body@ == pat_body(programs@.take(i as int)),
        decreases programs@.len() - i,
    {
        let ghost so_far = programs@.take(i + 1);
        assert(so_far.drop_last() =~= programs@.take(i as int));
        push_be16(&mut body, programs[i].0);
        push_be16(&mut body, 0xE000 | (programs[i].1 & 0x1FFF));
        i += 1;
    }
    assert(programs@.take(i as int) =~= programs@);
    seal(PAT_TABLE_ID, PSI_TAG, transport_stream_id, version, body.as_slice())
}

/// The bytes of loop entries.
pub open spec fn entries_bytes(es: Seq<LoopEntry>) -> Seq<u8>
    decreases es.len(),
{
    if es.len() == 0 {
        Seq::empty()
    } else {
        entries_bytes(es.drop_last()) + es.last().head + es.last().descriptors
    }
}

/// One stream of a PMT to build.
#[derive(Debug, Clone)]
pub struct PmtStreamEntry {
    /// `stream_type`.
    pub stream_type: u8,
    /// 13-bit PID.
    pub elementary_pid: u16,
    /// Bytes of the stream's descriptor loop.
    pub es_info: Vec<u8>,
}

/// A stream of a PMT, as loop bytes.
pub open spec fn pmt_entry(stream_type: u8, pid: u16, es_info: Seq<u8>) -> LoopEntry {
    LoopEntry {
        head: seq![stream_type] + be16_bytes(0xE000 | (pid & 0x1FFF)) + be16_bytes(
            tagged_len(LEN_TAG, es_info.len()),
        ),
        descriptors: es_info,
    }
}

impl PmtStreamEntry {
    /// The entry as loop bytes.
    pub open spec fn entry(self) -> LoopEntry {
        pmt_entry(self.stream_type, self.elementary_pid, self.es_info@)
    }
}

/// The entries of PMT streams.
pub open spec fn pmt_entries(streams: Seq<PmtStreamEntry>) -> Seq<LoopEntry> {
    streams.map_values(|s: PmtStreamEntry| s.entry())
}

/// The body of a PMT.
pub open spec fn pmt_body(pcr_pid: u16, info: Seq<u8>, entries: Seq<LoopEntry>) -> Seq<u8> {
    be16_bytes(0xE000 | (pcr_pid & 0x1FFF)) + be16_bytes(tagged_len(LEN_TAG, info.len()))
        + info + entries_bytes(entries)
}

/// A PMT section.
pub fn build_pmt(
    program_number: u16,
    version: u8,
    pcr_pid: u16,
    program_info: &[u8],
    streams: &[PmtStreamEntry],
) -> (r: Vec<u8>)
    ensures
        r@ == sealed(
            PMT_TABLE_ID,
            PSI_TAG,
            program_number,
            version,
            pmt_body(pcr_pid, program_info@, pmt_entries(streams@)),
        ),
{
    let mut body: Vec<u8> = Vec::new();
    push_be16(&mut body, 0xE000 | (pcr_pid & 0x1FFF));
    push_be16(&mut body, pack_len(LEN_TAG, program_info.len()));
    body.extend_from_slice(program_info);
    let ghost lead = body@;
    let ghost all = pmt_entries(streams@);
    let mut i: usize = 0;
    assert(all.take(0) =~= Seq::<LoopEntry>::empty());
    assert(lead + Seq::<u8>::empty() =~= lead);
    while i < streams.len()
        invariant
            i <= streams@.len(),
            all == pmt_entries(streams@),
            body@ == lead + entries_bytes(all.take(i as int)),
        decreases streams@.len() - i,
    {
        let ghost before = body@;
        let s: &PmtStreamEntry = &streams[i];
        body.push(s.stream_type);
        push_be16(&mut body, 0xE000 | (s.elementary_pid & 0x1FFF));
        push_be16(&mut body, pack_len(LEN_TAG, s.es_info.len()));
        body.extend_from_slice(s.es_info.as_slice());
        proof {
            let e = all[i as int];
            assert(all.take(i + 1).drop_last() =~= all.take(i as int));
            assert(body@ =~= before + e.head + e.descriptors);
            assert(body@ =~= lead + (entries_bytes(all.take(i as int)) + e.head + e.descriptors));
        }
        i += 1;
    }
    assert(all.take(i as int) =~= all);
    assert(body@ =~= pmt_body(pcr_pid, program_info@, all));
    seal(PMT_TABLE_ID, PSI_TAG, program_number, version, body.as_slice())
}

/// The 3-bit value of a running status.
pub open spec fn status_code(s: RunningStatus) -> u8 {
    match s {
        RunningStatus::Undefined => 0,
        RunningStatus::NotRunning => 1,
        RunningStatus::StartsSoon => 2,
        RunningStatus::Pausing => 3,
        RunningStatus::Running => 4,
        RunningStatus::OffAir => 5,
        RunningStatus::Reserved(v) => v & 7,
    }
}

fn status_bits(s: RunningStatus) -> (r: u8)
    ensures
        r == status_code(s),
{
    match s {
        RunningStatus::Undefined => 0,
        RunningStatus::NotRunning => 1,
        RunningStatus::StartsSoon => 2,
        RunningStatus::Pausing => 3,
        RunningStatus::Running => 4,
        RunningStatus::OffAir => 5,
        RunningStatus::Reserved(v) => v & 7,
    }
}

/// Running status and `free_CA_mode`, above a 12-bit length.
pub open spec fn status_tag(s: RunningStatus, free_ca: bool) -> u16 {
    ((status_code(s) as u16) << 13) | (if free_ca { 0x1000 } else { 0 })
}

fn status_bits_tag(s: RunningStatus, free_ca: bool) -> (r: u16)
    ensures
        r == status_tag(s, free_ca),
{
    ((status_bits(s) as u16) << 13) | (if free_ca { 0x1000 } else { 0 })
}

/// One service of an SDT to build.
#[derive(Debug, Clone)]
pub struct SdtServiceEntry {
    /// `service_id`.
    pub service_id: u16,
    /// `EIT_schedule_flag`.
    pub eit_schedule: bool,
    /// `EIT_present_following_flag`.
    pub eit_present_following: bool,
    /// `running_status`.
    pub running_status: RunningStatus,
    /// `free_CA_mode`.
    pub free_ca_mode: bool,
    /// Bytes of the service's descriptor loop.
    pub descriptors: Vec<u8>,
}

/// The flags of a service, the reserved bits set.
pub open spec fn sdt_flags(eit_schedule: bool, eit_present_following: bool) -> u8 {
    0xFC | (if eit_schedule { 2u8 } else { 0 }) | (if eit_present_following { 1u8 } else { 0 })
}

/// A service of an SDT, as loop bytes. `tag` holds the status bits.
pub open spec fn sdt_entry(service_id: u16, flags: u8, tag: u16, descriptors: Seq<u8>) -> LoopEntry {
    LoopEntry {
        head: be16_bytes(service_id) + seq![flags] + be16_bytes(tagged_len(tag, descriptors.len())),
        descriptors,
    }
}

impl SdtServiceEntry {
    /// The entry as loop bytes.
    pub open spec fn entry(self) -> LoopEntry {
        sdt_entry(
            self.service_id,
            sdt_flags(self.eit_schedule, self.eit_present_following),
            status_tag(self.running_status, self.free_ca_mode),
            self.descriptors@,
        )
    }
}

/// The entries of SDT services.
pub open spec fn sdt_entries(services: Seq<SdtServiceEntry>) -> Seq<LoopEntry> {
    services.map_values(|s: SdtServiceEntry| s.entry())
}

/// The body of an SDT.
pub open spec fn sdt_body(original_network_id: u16, entries: Seq<LoopEntry>) -> Seq<u8> {
    be16_bytes(original_network_id) + seq![0xFFu8] + entries_bytes(entries)
}

/// An SDT section, of the actual transport stream or of another one.
pub fn build_sdt(
    actual: bool,
    transport_stream_id: u16,
    original_network_id: u16,
    version: u8,
    services: &[SdtServiceEntry],
) -> (r: Vec<u8>)
    ensures
        r@ == sealed(
            if actual { SDT_ACTUAL_TABLE_ID } else { SDT_OTHER_TABLE_ID },
            SI_TAG,
            transport_stream_id,
            version,
            sdt_body(original_network_id, sdt_entries(services@)),
        ),
{
    let mut body: Vec<u8> = Vec::new();
    push_be16(&mut body, original_network_id);
    body.push(0xFF);
    let ghost lead = body@;
    let ghost all = sdt_entries(services@);
    let mut i: usize = 0;
    assert(all.take(0) =~= Seq::<LoopEntry>::empty());
    assert(lead + Seq::<u8>::empty() =~= lead);
    while i < services.len()
        invariant
            i <= services@.len(),
            all == sdt_entries(services@),
            body@ == lead + entries_bytes(all.take(i as int)),
        decreases services@.len() - i,
    {
        let ghost before = body@;
        let s: &SdtServiceEntry = &services[i];
        push_be16(&mut body, s.service_id);
        body.push(
            0xFC | (if s.eit_schedule { 2u8 } else { 0 }) | (if s.eit_present_following {
                1u8
            } else {
                0
            }),
        );
        push_be16(
            &mut body,
            pack_len(status_bits_tag(s.running_status, s.free_ca_mode), s.descriptors.len()),
        );
        body.extend_from_slice(s.descriptors.as_slice());
        proof {
            let e = all[i as int];
            assert(all.take(i + 1).drop_last() =~= all.take(i as int));
            assert(body@ =~= before + e.head + e.descriptors);
            assert(body@ =~= lead + (entries_bytes(all.take(i as int)) + e.head + e.descriptors));
        }
        i += 1;
    }
    assert(all.take(i as int) =~= all);
    assert(body@ =~= sdt_body(original_network_id, all));
    let table_id: u8 = if actual { SDT_ACTUAL_TABLE_ID } else { SDT_OTHER_TABLE_ID };
    seal(table_id, SI_TAG, transport_stream_id, version, body.as_slice())
}

/// One transport stream of a NIT to build.
#[derive(Debug, Clone)]
pub struct NitTsEntry {
    /// `transport_stream_id`.
    pub transport_stream_id: u16,
    /// `original_network_id`.
    pub original_network_id: u16,
    /// Bytes of the entry's descriptor loop.
    pub descriptors: Vec<u8>,
}

/// A transport stream of a NIT, as loop bytes.
pub open spec fn nit_entry(
    transport_stream_id: u16,
    original_network_id: u16,
    descriptors: Seq<u8>,
) -> LoopEntry {
    LoopEntry {
        head: be16_bytes(transport_stream_id) + be16_bytes(original_network_id) + be16_bytes(
            tagged_len(LEN_TAG, descriptors.len()),
        ),
        descriptors,
    }
}

impl NitTsEntry {
    /// The entry as loop bytes.
    pub open spec fn entry(self) -> LoopEntry {
        nit_entry(self.transport_stream_id, self.original_network_id, self.descriptors@)
    }
}

/// The entries of NIT transport streams.
pub open spec fn nit_entries(streams: Seq<NitTsEntry>) -> Seq<LoopEntry> {
    streams.map_values(|s: NitTsEntry| s.entry())
}

/// The body of a NIT.
pub open spec fn nit_body(descriptors: Seq<u8>, entries: Seq<LoopEntry>) -> Seq<u8> {
    be16_bytes(tagged_len(LEN_TAG, descriptors.len())) + descriptors + be16_bytes(
        tagged_len(LEN_TAG, entries_bytes(entries).len()),
    ) + entries_bytes(entries)
}

/// A NIT section, of the actual network or of another one.
pub fn build_nit(
    actual: bool,
    network_id: u16,
    version: u8,
    network_descriptors: &[u8],
    streams: &[NitTsEntry],
) -> (r: Vec<u8>)
    ensures
        r@ == sealed(
            if actual { NIT_ACTUAL_TABLE_ID } else { NIT_OTHER_TABLE_ID },
            SI_TAG,
            network_id,
            version,
            nit_body(network_descriptors@, nit_entries(streams@)),
        ),
{
    let ghost all = nit_entries(streams@);
    let mut list: Vec<u8> = Vec::new();
    let mut i: usize = 0;
    assert(all.take(0) =~= Seq::<LoopEntry>::empty());
    while i < streams.len()
        invariant
            i <= streams@.len(),
            all == nit_entries(streams@),
            list@ == entries_bytes(all.take(i as int)),
        decreases streams@.len() - i,
    {
        let ghost before = list@;
        let s: &NitTsEntry = &streams[i];
        push_be16(&mut list, s.transport_stream_id);
        push_be16(&mut list, s.original_network_id);
        push_be16(&mut list, pack_len(LEN_TAG, s.descriptors.len()));
        list.extend_from_slice(s.descriptors.as_slice());
        proof {
            let e = all[i as int];
            assert(all.take(i + 1).drop_last() =~= all.take(i as int));
            assert(list@ =~= before + e.head + e.descriptors);
        }
        i += 1;
    }
    assert(all.take(i as int) =~= all);
    let mut body: Vec<u8> = Vec::new();
    push_be16(&mut body, pack_len(LEN_TAG, network_descriptors.len()));
    body.extend_from_slice(network_descriptors);
    push_be16(&mut body, pack_len(LEN_TAG, list.len()));
    body.extend_from_slice(list.as_slice());
    assert(body@ =~= nit_body(network_descriptors@, all));
    let table_id: u8 = if actual { NIT_ACTUAL_TABLE_ID } else { NIT_OTHER_TABLE_ID };
    seal(table_id, SI_TAG, network_id, version, body.as_slice())
}

/// One event of an EIT to build.
#[derive(Debug, Clone)]
pub struct EitEventEntry {
    /// `event_id`.
    pub event_id: u16,
    /// `start_time`.
    pub start_time: Option<EitDateTime>,
    /// `duration`.
    pub duration: EitDuration,
    /// `running_status`.
    pub running_status: RunningStatus,
    /// `free_CA_mode`.
    pub free_ca_mode: bool,
    /// Bytes of the event's descriptor loop.
    pub descriptors: Vec<u8>,
}

/// An event of an EIT, as loop bytes. `tag` holds the status bits.
pub open spec fn eit_entry(
    event_id: u16,
    start_time: Option<EitDateTime>,
    duration: EitDuration,
    tag: u16,
    descriptors: Seq<u8>,
) -> LoopEntry {
    LoopEntry {
        head: be16_bytes(event_id) + utc_time_bytes(start_time) + seq![
            bcd_code(duration.hours),
            bcd_code(duration.minutes),
            bcd_code(duration.seconds),
        ] + be16_bytes(tagged_len(tag, descriptors.len())),
        descriptors,
    }
}

impl EitEventEntry {
    /// The entry as loop bytes.
    pub open spec fn entry(self) -> LoopEntry {
        eit_entry(
            self.event_id,
            self.start_time,
            self.duration,
            status_tag(self.running_status, self.free_ca_mode),
            self.descriptors@,
        )
    }
}

/// The entries of EIT events.
pub open spec fn eit_entries(events: Seq<EitEventEntry>) -> Seq<LoopEntry> {
    events.map_values(|e: EitEventEntry| e.entry())
}

/// The body of a present/following EIT.
pub open spec fn eit_body(
    transport_stream_id: u16,
    original_network_id: u16,
    table_id: u8,
    entries: Seq<LoopEntry>,
) -> Seq<u8> {
    be16_bytes(transport_stream_id) + be16_bytes(original_network_id) + seq![0u8, table_id]
        + entries_bytes(entries)
}

/// A present/following EIT section, of the actual transport stream or of another
/// one.
pub fn build_eit_pf(
    actual: bool,
    service_id: u16,
    transport_stream_id: u16,
    original_network_id: u16,
    version: u8,
    events: &[EitEventEntry],
) -> (r: Vec<u8>)
    ensures
        ({
            let table_id = if actual { EIT_ACTUAL_PF_TABLE_ID } else { EIT_OTHER_PF_TABLE_ID };
            r@ == sealed(
                table_id,
                SI_TAG,
                service_id,
                version,
                eit_body(transport_stream_id, original_network_id, table_id, eit_entries(events@)),
            )
        }),
{
    let table_id: u8 = if actual { EIT_ACTUAL_PF_TABLE_ID } else { EIT_OTHER_PF_TABLE_ID };
    let mut body: Vec<u8> = Vec::new();
    push_be16(&mut body, transport_stream_id);
    push_be16(&mut body, original_network_id);
    body.push(0);
    body.push(table_id);
    let ghost lead = body@;
    let ghost all = eit_entries(events@);
    let mut i: usize = 0;
    assert(all.take(0) =~= Seq::<LoopEntry>::empty());
    assert(lead + Seq::<u8>::empty() =~= lead);
    while i < events.len()
        invariant
            i <= events@.len(),
            all == eit_entries(events@),
            body@ == lead + entries_bytes(all.take(i as int)),
        decreases events@.len() - i,
    {
        let ghost before = body@;
        let ev: &EitEventEntry = &events[i];
        push_be16(&mut body, ev.event_id);
        let start: [u8; 5] = encode_utc_time(ev.start_time);
        body.extend_from_slice(start.as_slice());
        body.push(to_bcd(ev.duration.hours));
        body.push(to_bcd(ev.duration.minutes));
        body.push(to_bcd(ev.duration.seconds));
        push_be16(
            &mut body,
            pack_len(status_bits_tag(ev.running_status, ev.free_ca_mode), ev.descriptors.len()),
        );
        body.extend_from_slice(ev.descriptors.as_slice());
        proof {
            let e = all[i as int];
            assert(all.take(i + 1).drop_last() =~= all.take(i as int));
            assert(body@ =~= before + e.head + e.descriptors);
            assert(body@ =~= lead + (entries_bytes(all.take(i as int)) + e.head + e.descriptors));
        }
        i += 1;
    }
    assert(all.take(i as int) =~= all);
    assert(body@ =~= eit_body(transport_stream_id, original_network_id, table_id, all));
    seal(table_id, SI_TAG, service_id, version, body.as_slice())
}

} // verus!
