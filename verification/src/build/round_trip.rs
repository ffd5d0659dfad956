//! The tables and times written here are read back by the parsers.
use vstd::prelude::*;

use crate::build::descriptors::{bcd_code, date_mjd, utc_time_bytes};
use crate::build::sections::{
    eit_body, eit_entries, entries_bytes, nit_body, nit_entries, pat_body, pmt_body, pmt_entries,
    pmt_entry, sdt_body, sdt_entries, sdt_flags, sealed, status_code, status_tag, tagged_len,
    unsealed, EitEventEntry, NitTsEntry, PmtStreamEntry, SdtServiceEntry, LEN_TAG, PSI_TAG, SI_TAG,
};
use crate::bytes::{
    be16_at, be16_bytes, be32_bytes, lemma_be16_round_trip, lemma_be32_round_trip, low12, low13,
};
use crate::psi::crc::crc_of;
use crate::psi::dvb::{
    eit_error, nit_error, nit_loop, nit_loop_at, nit_loop_len, sdt_error, RunningStatus,
    EIT_ACTUAL_PF_TABLE_ID, EIT_OTHER_PF_TABLE_ID, NIT_ACTUAL_TABLE_ID, NIT_OTHER_TABLE_ID,
    SDT_ACTUAL_TABLE_ID, SDT_OTHER_TABLE_ID,
};
use crate::psi::entries::{loop_entries, LoopEntry};
use crate::psi::section::{
    section_body, section_error, section_header, section_total, SectionHeader,
};
use crate::psi::tables::{
    pat_programs, pmt_error, pmt_info_len, pmt_loop, PAT_TABLE_ID, PMT_TABLE_ID,
};
use crate::psi::time::{
    bcd_value, civil_date, formula_day, mjd_month, mjd_year, lemma_before_march_1900,
    lemma_date_in_range, lemma_utc_time_in_range, month_len, utc_time_spec, CivilDate, EitDateTime,
};

verus! {

pub(crate) proof fn lemma_low_bits_kept(tag: u16, v: u16)
    by (bit_vector)
    requires
        tag & 0x0FFF == 0,
        v < 4096,
    ensures
        ({
            let w = tag | v;
            let hi = ((w >> 8) & 0xFF) as u8;
            let lo = (w & 0xFF) as u8;
            &&& ((((hi & 0x0F) as u16) << 8) | (lo as u16)) == v
            &&& hi >> 5 == (tag >> 13) as u8
            &&& hi >> 4 == (tag >> 12) as u8
            &&& (hi & 0x10 != 0) == (tag & 0x1000 != 0)
        }),
{
}

pub(crate) proof fn lemma_pid_kept(v: u16)
    by (bit_vector)
    ensures
        ({
            let w = 0xE000 | (v & 0x1FFF);
            let hi = ((w >> 8) & 0xFF) as u8;
            let lo = (w & 0xFF) as u8;
            &&& ((((hi & 0x1F) as u16) << 8) | (lo as u16)) == v & 0x1FFF
            &&& hi >= 224
        }),
        v < 0x2000 ==> v & 0x1FFF == v,
        0xB000u16 & 0x0FFF == 0,
        0xF000u16 & 0x0FFF == 0,
{
}

pub(crate) proof fn lemma_version_kept(v: u8)
    by (bit_vector)
    ensures
        ((0xC1 | ((v & 0x1F) << 1)) >> 1) & 0x1F == v & 0x1F,
        (0xC1 | ((v & 0x1F) << 1)) & 1 != 0,
        (0xC1 | ((v & 0x1F) << 1)) >= 192,
        v < 32 ==> v & 0x1F == v,
{
}

/// The header that a written section carries.
pub open spec fn written_header(ext: u16, version: u8) -> SectionHeader {
    SectionHeader {
        table_id_extension: ext,
        version_number: version & 0x1F,
        current_next_indicator: true,
        section_number: 0,
        last_section_number: 0,
    }
}

/// A written section passes every check, and hands back its header fields and
/// body, as long as the body fits the 12-bit length.
pub proof fn lemma_section_round_trip(
    table_id: u8,
    tag: u16,
    ext: u16,
    version: u8,
    body: Seq<u8>,
)
    requires
        tag & 0x0FFF == 0,
        body.len() + 9 < 4096,
    ensures
        ({
            let s = sealed(table_id, tag, ext, version, body);
            &&& s.len() == body.len() + 12
            &&& s[0] == table_id
            &&& section_total(s) == s.len()
            &&& section_error(s, table_id) is None
            &&& section_header(s) == written_header(ext, version)
            &&& section_body(s) == body
        }),
{
    let u = unsealed(table_id, tag, ext, version, body);
    let s = sealed(table_id, tag, ext, version, body);
    let n = (body.len() + 9) as u16;
    let len = be16_bytes(tag | n);
    assert(u.len() == body.len() + 8);
    assert(s[0] == table_id);
    assert(s[1] == len[0] && s[2] == len[1]);
    lemma_low_bits_kept(tag, n);
    assert(section_total(s) == s.len());
    assert(s.subrange(0, u.len() as int) =~= u);
    assert(s.subrange(u.len() as int, u.len() as int + 4) =~= be32_bytes(crc_of(u)));
    lemma_be32_round_trip(crc_of(u), s, u.len() as int);
    assert(s.subrange(3, 5) =~= be16_bytes(ext));
    lemma_be16_round_trip(ext, s, 3);
    lemma_version_kept(version);
    assert(s[5] == 0xC1 | ((version & 0x1F) << 1));
    assert(s[6] == 0 && s[7] == 0);
    assert(section_body(s) =~= body);
}

/// Programs written into a PAT are read back, with 13-bit PIDs.
pub proof fn lemma_pat_round_trip(tsid: u16, version: u8, programs: Seq<(u16, u16)>)
    requires
        4 * programs.len() + 9 < 4096,
        forall|i: int| 0 <= i < programs.len() ==> (#[trigger] programs[i]).1 < 0x2000,
    ensures
        ({
            let s = sealed(PAT_TABLE_ID, PSI_TAG, tsid, version, pat_body(programs));
            &&& section_error(s, PAT_TABLE_ID) is None
            &&& section_header(s) == written_header(tsid, version)
            &&& pat_programs(section_body(s)) == programs
        }),
{
    lemma_pat_body(programs);
    lemma_pid_kept(0);
    lemma_section_round_trip(PAT_TABLE_ID, PSI_TAG, tsid, version, pat_body(programs));
    assert(pat_programs(pat_body(programs)) =~= programs) by {
        assert forall|i: int| 0 <= i < programs.len() implies pat_programs(pat_body(programs))[i]
            == programs[i] by {
            lemma_pid_kept(programs[i].1);
        }
    }
}

proof fn lemma_pat_body(programs: Seq<(u16, u16)>)
    ensures
        pat_body(programs).len() == 4 * programs.len(),
        forall|i: int|
            0 <= i < programs.len() ==> {
                &&& be16_at(pat_body(programs), 4 * i) == (#[trigger] programs[i]).0
                &&& low13(pat_body(programs)[4 * i + 2], pat_body(programs)[4 * i + 3])
                    == programs[i].1 & 0x1FFF
            },
    decreases programs.len(),
{
    if programs.len() > 0 {
        let prior = programs.drop_last();
        lemma_pat_body(prior);
        let b = pat_body(programs);
        let p = pat_body(prior);
        let n = programs.len() - 1;
        let (num, pid) = programs.last();
        assert(b.subrange(4 * n, 4 * n + 2) =~= be16_bytes(num));
        lemma_be16_round_trip(num, b, 4 * n);
        let w = be16_bytes(0xE000 | (pid & 0x1FFF));
        assert(b[4 * n + 2] == w[0] && b[4 * n + 3] == w[1]);
        lemma_pid_kept(pid);
        assert forall|i: int| 0 <= i < programs.len() implies {
            &&& be16_at(b, 4 * i) == (#[trigger] programs[i]).0
            &&& low13(b[4 * i + 2], b[4 * i + 3]) == programs[i].1 & 0x1FFF
        } by {
            if i < n {
                assert(programs[i] == prior[i]);
                assert(b[4 * i] == p[4 * i] && b[4 * i + 1] == p[4 * i + 1]);
                assert(b[4 * i + 2] == p[4 * i + 2] && b[4 * i + 3] == p[4 * i + 3]);
            }
        }
    }
}

/// Entry `e` has a head of `h` bytes that announces its descriptors' length.
pub open spec fn announces(e: LoopEntry, h: int) -> bool {
    e.head.len() == h && low12(e.head[h - 2], e.head[h - 1]) == e.descriptors.len()
}

/// Written loop entries are read back.
pub proof fn lemma_entries_round_trip(es: Seq<LoopEntry>, h: int)
    requires
        h >= 2,
        forall|i: int| 0 <= i < es.len() ==> #[trigger] announces(es[i], h),
    ensures
        loop_entries(entries_bytes(es), h) == Ok::<_, crate::TsError>(es),
    decreases es.len(),
{
    if es.len() == 0 {
        assert(es =~= Seq::empty());
    } else {
        let e = es[0];
        let rest = es.skip(1);
        lemma_entries_first(es);
        let l = entries_bytes(es);
        assert(announces(e, h));
        let n = e.descriptors.len() as int;
        assert(l[h - 2] == e.head[h - 2] && l[h - 1] == e.head[h - 1]);
        assert(l.take(h) =~= e.head);
        assert(l.subrange(h, h + n) =~= e.descriptors);
        assert(l.skip(h + n) =~= entries_bytes(rest));
        assert forall|i: int| 0 <= i < rest.len() implies #[trigger] announces(rest[i], h) by {
            assert(announces(es[i + 1], h));
        }
        lemma_entries_round_trip(rest, h);
        assert(seq![e] + rest =~= es);
    }
}

proof fn lemma_entries_first(es: Seq<LoopEntry>)
    requires
        es.len() > 0,
    ensures
        entries_bytes(es) == es[0].head + es[0].descriptors + entries_bytes(es.skip(1)),
    decreases es.len(),
{
    let rest = es.skip(1);
    if es.len() == 1 {
        assert(es.drop_last() =~= Seq::empty());
        assert(rest =~= Seq::empty());
        assert(entries_bytes(es) =~= es[0].head + es[0].descriptors + entries_bytes(rest));
    } else {
        lemma_entries_first(es.drop_last());
        assert(es.drop_last().skip(1) =~= rest.drop_last());
        assert(entries_bytes(es) =~= es[0].head + es[0].descriptors + entries_bytes(rest));
    }
}

/// A PMT is read back: the PCR PID, the program's descriptors, and the entries
/// of its loop.
pub proof fn lemma_pmt_entries_round_trip(
    program: u16,
    version: u8,
    pcr_pid: u16,
    info: Seq<u8>,
    es: Seq<LoopEntry>,
)
    requires
        pcr_pid < 0x2000,
        forall|i: int| 0 <= i < es.len() ==> #[trigger] announces(es[i], 5),
        pmt_body(pcr_pid, info, es).len() + 9 < 4096,
    ensures
        ({
            let s = sealed(PMT_TABLE_ID, PSI_TAG, program, version, pmt_body(pcr_pid, info, es));
            &&& pmt_error(s) is None
            &&& section_header(s) == written_header(program, version)
            &&& low13(section_body(s)[0], section_body(s)[1]) == pcr_pid
            &&& section_body(s).subrange(4, 4 + pmt_info_len(section_body(s))) == info
            &&& loop_entries(pmt_loop(section_body(s)), 5) == Ok::<_, crate::TsError>(es)
        }),
{
    lemma_pid_kept(pcr_pid);
    lemma_section_round_trip(
        PMT_TABLE_ID,
        PSI_TAG,
        program,
        version,
        pmt_body(pcr_pid, info, es),
    );
    lemma_pmt_body(pcr_pid, info, es);
    lemma_entries_round_trip(es, 5);
}

/// A PMT is read back: the PCR PID, the program's descriptors, and each stream.
pub proof fn lemma_pmt_round_trip(
    program: u16,
    version: u8,
    pcr_pid: u16,
    info: Seq<u8>,
    streams: Seq<PmtStreamEntry>,
)
    requires
        pcr_pid < 0x2000,
        forall|i: int|
            0 <= i < streams.len() ==> (#[trigger] streams[i]).elementary_pid < 0x2000
                && streams[i].es_info@.len() < 4096,
        pmt_body(pcr_pid, info, pmt_entries(streams)).len() + 9 < 4096,
    ensures
        ({
            let body = pmt_body(pcr_pid, info, pmt_entries(streams));
            let s = sealed(PMT_TABLE_ID, PSI_TAG, program, version, body);
            &&& pmt_error(s) is None
            &&& section_header(s) == written_header(program, version)
            &&& low13(section_body(s)[0], section_body(s)[1]) == pcr_pid
            &&& section_body(s).subrange(4, 4 + pmt_info_len(section_body(s))) == info
            &&& loop_entries(pmt_loop(section_body(s)), 5) == Ok::<_, crate::TsError>(
                pmt_entries(streams),
            )
            &&& forall|i: int|
                0 <= i < streams.len() ==> {
                    let e = #[trigger] pmt_entries(streams)[i];
                    &&& e.head[0] == streams[i].stream_type
                    &&& low13(e.head[1], e.head[2]) == streams[i].elementary_pid
                    &&& e.descriptors == streams[i].es_info@
                }
        }),
{
    let es = pmt_entries(streams);
    assert forall|i: int| 0 <= i < es.len() implies #[trigger] announces(es[i], 5) by {
        lemma_pmt_entry(streams[i].stream_type, streams[i].elementary_pid, streams[i].es_info@);
    }
    lemma_pmt_entries_round_trip(program, version, pcr_pid, info, es);
    assert forall|i: int| 0 <= i < streams.len() implies {
        let e = #[trigger] es[i];
        &&& e.head[0] == streams[i].stream_type
        &&& low13(e.head[1], e.head[2]) == streams[i].elementary_pid
        &&& e.descriptors == streams[i].es_info@
    } by {
        lemma_pmt_entry(streams[i].stream_type, streams[i].elementary_pid, streams[i].es_info@);
    }
}

proof fn lemma_pmt_body(pcr_pid: u16, info: Seq<u8>, es: Seq<LoopEntry>)
    requires
        pcr_pid < 0x2000,
        info.len() < 4096,
    ensures
        ({
            let body = pmt_body(pcr_pid, info, es);
            &&& body.len() >= 4 + info.len()
            &&& low13(body[0], body[1]) == pcr_pid
            &&& pmt_info_len(body) == info.len()
            &&& body.subrange(4, 4 + info.len() as int) == info
            &&& pmt_loop(body) == entries_bytes(es)
        }),
{
    let body = pmt_body(pcr_pid, info, es);
    lemma_pid_kept(pcr_pid);
    lemma_low_bits_kept(LEN_TAG, info.len() as u16);
    let w = be16_bytes(0xE000 | (pcr_pid & 0x1FFF));
    let l = be16_bytes(tagged_len(LEN_TAG, info.len()));
    assert(body[0] == w[0] && body[1] == w[1] && body[2] == l[0] && body[3] == l[1]);
    assert(body.subrange(4, 4 + info.len() as int) =~= info);
    assert(pmt_loop(body) =~= entries_bytes(es));
}

/// A PMT entry is read back.
pub proof fn lemma_pmt_entry(stream_type: u8, pid: u16, info: Seq<u8>)
    requires
        pid < 0x2000,
        info.len() < 4096,
    ensures
        announces(pmt_entry(stream_type, pid, info), 5),
        pmt_entry(stream_type, pid, info).head[0] == stream_type,
        low13(
            pmt_entry(stream_type, pid, info).head[1],
            pmt_entry(stream_type, pid, info).head[2],
        ) == pid,
{
    lemma_pid_kept(pid);
    lemma_low_bits_kept(LEN_TAG, info.len() as u16);
    let hd = pmt_entry(stream_type, pid, info).head;
    let w = be16_bytes(0xE000 | (pid & 0x1FFF));
    let l = be16_bytes(tagged_len(LEN_TAG, info.len()));
    assert(hd[1] == w[0] && hd[2] == w[1] && hd[3] == l[0] && hd[4] == l[1]);
}

/// No entry is longer than all of them.
pub proof fn lemma_entry_within(es: Seq<LoopEntry>, i: int)
    requires
        0 <= i < es.len(),
    ensures
        es[i].head.len() + es[i].descriptors.len() <= entries_bytes(es).len(),
    decreases es.len(),
{
    if i < es.len() - 1 {
        lemma_entry_within(es.drop_last(), i);
    }
}

proof fn lemma_status_tag(code: u8, free_ca: bool)
    by (bit_vector)
    requires
        code < 8,
    ensures
        ({
            let tag = ((code as u16) << 13) | (if free_ca { 0x1000u16 } else { 0u16 });
            &&& tag & 0x0FFF == 0
            &&& tag >> 13 == code as u16
            &&& (tag & 0x1000 != 0) == free_ca
        }),
        code & 7 == code,
{
}

/// A status as the parser gives it: a reserved value is 6 or 7.
pub open spec fn is_coded_status(s: RunningStatus) -> bool {
    s matches RunningStatus::Reserved(v) ==> v == 6 || v == 7
}

pub(crate) proof fn lemma_status_round_trip(s: RunningStatus, free_ca: bool, n: nat)
    requires
        is_coded_status(s),
        n < 4096,
    ensures
        ({
            let w = be16_bytes(tagged_len(status_tag(s, free_ca), n));
            &&& RunningStatus::coded((w[0] >> 5) & 7) == s
            &&& (w[0] & 0x10 != 0) == free_ca
            &&& low12(w[0], w[1]) == n
        }),
{
    if let RunningStatus::Reserved(v) = s {
        assert(6u8 & 7 == 6 && 7u8 & 7 == 7) by (bit_vector);
    }
    lemma_status_tag(status_code(s), free_ca);
    lemma_low_bits_kept(status_tag(s, free_ca), n as u16);
}

/// An SDT is read back: the network and each service.
pub proof fn lemma_sdt_round_trip(
    actual: bool,
    tsid: u16,
    onid: u16,
    version: u8,
    services: Seq<SdtServiceEntry>,
)
    requires
        forall|i: int|
            0 <= i < services.len() ==> is_coded_status((#[trigger] services[i]).running_status)
                && services[i].descriptors@.len() < 4096,
        sdt_body(onid, sdt_entries(services)).len() + 9 < 4096,
    ensures
        ({
            let table_id = if actual { SDT_ACTUAL_TABLE_ID } else { SDT_OTHER_TABLE_ID };
            let s = sealed(table_id, SI_TAG, tsid, version, sdt_body(onid, sdt_entries(services)));
            &&& sdt_error(s) is None
            &&& s[0] == table_id
            &&& section_header(s) == written_header(tsid, version)
            &&& be16_at(section_body(s), 0) == onid
            &&& loop_entries(section_body(s).skip(3), 5) == Ok::<_, crate::TsError>(
                sdt_entries(services),
            )
            &&& forall|i: int|
                0 <= i < services.len() ==> {
                    let e = #[trigger] sdt_entries(services)[i];
                    &&& be16_at(e.head, 0) == services[i].service_id
                    &&& (e.head[2] & 2 != 0) == services[i].eit_schedule
                    &&& (e.head[2] & 1 != 0) == services[i].eit_present_following
                    &&& RunningStatus::coded((e.head[3] >> 5) & 7) == services[i].running_status
                    &&& (e.head[3] & 0x10 != 0) == services[i].free_ca_mode
                    &&& e.descriptors == services[i].descriptors@
                }
        }),
{
    let table_id = if actual { SDT_ACTUAL_TABLE_ID } else { SDT_OTHER_TABLE_ID };
    let es = sdt_entries(services);
    let body = sdt_body(onid, es);
    lemma_pid_kept(0);
    lemma_section_round_trip(table_id, SI_TAG, tsid, version, body);
    assert(body.subrange(0, 2) =~= be16_bytes(onid));
    lemma_be16_round_trip(onid, body, 0);
    assert(body.skip(3) =~= entries_bytes(es));
    assert forall|i: int| 0 <= i < es.len() implies #[trigger] announces(es[i], 5) by {
        lemma_sdt_entry(services[i]);
    }
    lemma_entries_round_trip(es, 5);
    assert forall|i: int| 0 <= i < services.len() implies {
        let e = #[trigger] es[i];
        &&& be16_at(e.head, 0) == services[i].service_id
        &&& (e.head[2] & 2 != 0) == services[i].eit_schedule
        &&& (e.head[2] & 1 != 0) == services[i].eit_present_following
        &&& RunningStatus::coded((e.head[3] >> 5) & 7) == services[i].running_status
        &&& (e.head[3] & 0x10 != 0) == services[i].free_ca_mode
        &&& e.descriptors == services[i].descriptors@
    } by {
        lemma_sdt_entry(services[i]);
    }
}

proof fn lemma_sdt_entry(sv: SdtServiceEntry)
    requires
        is_coded_status(sv.running_status),
        sv.descriptors@.len() < 4096,
    ensures
        ({
            let hd = sv.entry().head;
            &&& announces(sv.entry(), 5)
            &&& be16_at(hd, 0) == sv.service_id
            &&& (hd[2] & 2 != 0) == sv.eit_schedule
            &&& (hd[2] & 1 != 0) == sv.eit_present_following
            &&& RunningStatus::coded((hd[3] >> 5) & 7) == sv.running_status
            &&& (hd[3] & 0x10 != 0) == sv.free_ca_mode
        }),
{
    let n = sv.descriptors@.len();
    lemma_status_round_trip(sv.running_status, sv.free_ca_mode, n);
    let w = be16_bytes(tagged_len(status_tag(sv.running_status, sv.free_ca_mode), n));
    let hd = sv.entry().head;
    assert(hd[3] == w[0] && hd[4] == w[1]);
    assert(hd.subrange(0, 2) =~= be16_bytes(sv.service_id));
    lemma_be16_round_trip(sv.service_id, hd, 0);
    lemma_flag_bits(sv.eit_schedule, sv.eit_present_following);
    assert(hd[2] == sdt_flags(sv.eit_schedule, sv.eit_present_following));
}

pub(crate) proof fn lemma_flag_bits(a: bool, b: bool)
    by (bit_vector)
    ensures
        ((0xFCu8 | (if a { 2u8 } else { 0u8 }) | (if b { 1u8 } else { 0u8 })) & 2 != 0) == a,
        ((0xFCu8 | (if a { 2u8 } else { 0u8 }) | (if b { 1u8 } else { 0u8 })) & 1 != 0) == b,
{
}

/// A NIT is read back: the network's descriptors and each transport stream.
pub proof fn lemma_nit_round_trip(
    actual: bool,
    network_id: u16,
    version: u8,
    descriptors: Seq<u8>,
    streams: Seq<NitTsEntry>,
)
    requires
        forall|i: int|
            0 <= i < streams.len() ==> (#[trigger] streams[i]).descriptors@.len() < 4096,
        nit_body(descriptors, nit_entries(streams)).len() + 9 < 4096,
    ensures
        ({
            let table_id = if actual { NIT_ACTUAL_TABLE_ID } else { NIT_OTHER_TABLE_ID };
            let s = sealed(
                table_id,
                SI_TAG,
                network_id,
                version,
                nit_body(descriptors, nit_entries(streams)),
            );
            &&& nit_error(s) is None
            &&& s[0] == table_id
            &&& section_header(s) == written_header(network_id, version)
            &&& section_body(s).subrange(2, nit_loop_at(section_body(s)) - 2) == descriptors
            &&& loop_entries(nit_loop(section_body(s)), 6) == Ok::<_, crate::TsError>(
                nit_entries(streams),
            )
            &&& forall|i: int|
                0 <= i < streams.len() ==> {
                    let e = #[trigger] nit_entries(streams)[i];
                    &&& be16_at(e.head, 0) == streams[i].transport_stream_id
                    &&& be16_at(e.head, 2) == streams[i].original_network_id
                    &&& e.descriptors == streams[i].descriptors@
                }
        }),
{
    let table_id = if actual { NIT_ACTUAL_TABLE_ID } else { NIT_OTHER_TABLE_ID };
    let es = nit_entries(streams);
    let body = nit_body(descriptors, es);
    lemma_pid_kept(0);
    lemma_section_round_trip(table_id, SI_TAG, network_id, version, body);
    lemma_nit_body(descriptors, es);
    assert forall|i: int| 0 <= i < es.len() implies #[trigger] announces(es[i], 6) by {
        lemma_nit_entry(streams[i]);
    }
    lemma_entries_round_trip(es, 6);
    assert forall|i: int| 0 <= i < streams.len() implies {
        let e = #[trigger] es[i];
        &&& be16_at(e.head, 0) == streams[i].transport_stream_id
        &&& be16_at(e.head, 2) == streams[i].original_network_id
        &&& e.descriptors == streams[i].descriptors@
    } by {
        lemma_nit_entry(streams[i]);
    }
}

pub(crate) proof fn lemma_nit_body(descriptors: Seq<u8>, es: Seq<LoopEntry>)
    requires
        descriptors.len() < 4096,
        entries_bytes(es).len() < 4096,
    ensures
        ({
            let body = nit_body(descriptors, es);
            &&& nit_loop_at(body) == 4 + descriptors.len()
            &&& body.len() == nit_loop_at(body) + entries_bytes(es).len()
            &&& nit_loop_len(body) == entries_bytes(es).len()
            &&& body.subrange(2, nit_loop_at(body) - 2) == descriptors
            &&& nit_loop(body) == entries_bytes(es)
        }),
{
    let list = entries_bytes(es);
    let body = nit_body(descriptors, es);
    lemma_pid_kept(0);
    lemma_low_bits_kept(LEN_TAG, descriptors.len() as u16);
    lemma_low_bits_kept(LEN_TAG, list.len() as u16);
    let a = be16_bytes(tagged_len(LEN_TAG, descriptors.len()));
    let b = be16_bytes(tagged_len(LEN_TAG, list.len()));
    let at = 2 + descriptors.len() as int;
    assert(body[0] == a[0] && body[1] == a[1] && body[at] == b[0] && body[at + 1] == b[1]);
    assert(body.subrange(2, at) =~= descriptors);
    assert(nit_loop(body) =~= list);
}

proof fn lemma_nit_entry(st: NitTsEntry)
    requires
        st.descriptors@.len() < 4096,
    ensures
        announces(st.entry(), 6),
        be16_at(st.entry().head, 0) == st.transport_stream_id,
        be16_at(st.entry().head, 2) == st.original_network_id,
{
    let hd = st.entry().head;
    let n = st.descriptors@.len();
    lemma_pid_kept(0);
    lemma_low_bits_kept(LEN_TAG, n as u16);
    let w = be16_bytes(tagged_len(LEN_TAG, n));
    assert(hd[4] == w[0] && hd[5] == w[1]);
    assert(hd.subrange(0, 2) =~= be16_bytes(st.transport_stream_id));
    lemma_be16_round_trip(st.transport_stream_id, hd, 0);
    assert(hd.subrange(2, 4) =~= be16_bytes(st.original_network_id));
    lemma_be16_round_trip(st.original_network_id, hd, 2);
}

/// A present/following EIT is read back: its streams and each event. The start
/// time is read back as its five bytes say.
pub proof fn lemma_eit_round_trip(
    actual: bool,
    service_id: u16,
    tsid: u16,
    onid: u16,
    version: u8,
    events: Seq<EitEventEntry>,
)
    requires
        forall|i: int| 0 <= i < events.len() ==> is_writable_event(#[trigger] events[i]),
        eit_body(tsid, onid, 0, eit_entries(events)).len() + 9 < 4096,
    ensures
        ({
            let table_id = if actual { EIT_ACTUAL_PF_TABLE_ID } else { EIT_OTHER_PF_TABLE_ID };
            let s = sealed(
                table_id,
                SI_TAG,
                service_id,
                version,
                eit_body(tsid, onid, table_id, eit_entries(events)),
            );
            &&& eit_error(s) is None
            &&& s[0] == table_id
            &&& section_header(s) == written_header(service_id, version)
            &&& be16_at(section_body(s), 0) == tsid
            &&& be16_at(section_body(s), 2) == onid
            &&& loop_entries(section_body(s).skip(6), 12) == Ok::<_, crate::TsError>(
                eit_entries(events),
            )
            &&& forall|i: int|
                0 <= i < events.len() ==> event_reads(events[i], #[trigger] eit_entries(events)[i])
        }),
{
    let table_id = if actual { EIT_ACTUAL_PF_TABLE_ID } else { EIT_OTHER_PF_TABLE_ID };
    let es = eit_entries(events);
    let body = eit_body(tsid, onid, table_id, es);
    lemma_pid_kept(0);
    lemma_section_round_trip(table_id, SI_TAG, service_id, version, body);
    assert(body.subrange(0, 2) =~= be16_bytes(tsid));
    lemma_be16_round_trip(tsid, body, 0);
    assert(body.subrange(2, 4) =~= be16_bytes(onid));
    lemma_be16_round_trip(onid, body, 2);
    assert(body.skip(6) =~= entries_bytes(es));
    assert forall|i: int| 0 <= i < es.len() implies #[trigger] announces(es[i], 12) by {
        lemma_eit_entry(events[i]);
    }
    lemma_entries_round_trip(es, 12);
    assert forall|i: int| 0 <= i < events.len() implies event_reads(
        events[i],
        #[trigger] es[i],
    ) by {
        lemma_eit_entry(events[i]);
    }
}

/// Event `ev` fits the fields of an EIT.
pub open spec fn is_writable_event(ev: EitEventEntry) -> bool {
    &&& is_coded_status(ev.running_status)
    &&& ev.duration.hours < 100 && ev.duration.minutes < 100 && ev.duration.seconds < 100
    &&& ev.descriptors@.len() < 4096
}

/// Loop entry `e` says what event `ev` does.
pub open spec fn event_reads(ev: EitEventEntry, e: LoopEntry) -> bool {
    &&& be16_at(e.head, 0) == ev.event_id
    &&& e.head.subrange(2, 7) == utc_time_bytes(ev.start_time)
    &&& bcd_value(e.head[7]) == ev.duration.hours
    &&& bcd_value(e.head[8]) == ev.duration.minutes
    &&& bcd_value(e.head[9]) == ev.duration.seconds
    &&& RunningStatus::coded((e.head[10] >> 5) & 7) == ev.running_status
    &&& (e.head[10] & 0x10 != 0) == ev.free_ca_mode
    &&& e.descriptors == ev.descriptors@
}

proof fn lemma_eit_entry(ev: EitEventEntry)
    requires
        is_writable_event(ev),
    ensures
        announces(ev.entry(), 12),
        event_reads(ev, ev.entry()),
{
    let n = ev.descriptors@.len();
    let hd = ev.entry().head;
    lemma_status_round_trip(ev.running_status, ev.free_ca_mode, n);
    let w = be16_bytes(tagged_len(status_tag(ev.running_status, ev.free_ca_mode), n));
    assert(hd[10] == w[0] && hd[11] == w[1]);
    assert(hd.subrange(0, 2) =~= be16_bytes(ev.event_id));
    lemma_be16_round_trip(ev.event_id, hd, 0);
    assert(hd.subrange(2, 7) =~= utc_time_bytes(ev.start_time));
    lemma_bcd_round_trip(ev.duration.hours);
    lemma_bcd_round_trip(ev.duration.minutes);
    lemma_bcd_round_trip(ev.duration.seconds);
}

/// Two decimal digits survive BCD.
pub proof fn lemma_bcd_round_trip(v: u8)
    requires
        v < 100,
    ensures
        bcd_value(bcd_code(v)) == v,
{
    let hi = (v / 10) as u8;
    let lo = (v % 10) as u8;
    assert(bcd_code(v) == hi * 16 + lo);
    let c = bcd_code(v);
    assert(c >> 4 == hi && c & 0x0F == lo) by (bit_vector)
        requires
            c == hi * 16 + lo,
            hi < 10,
            lo < 10,
    ;
}

/// The date of a Modified Julian Date gives that Modified Julian Date back.
pub proof fn lemma_mjd_round_trip(mjd: int)
    requires
        0 <= mjd <= 65535,
    ensures
        ({
            let d = civil_date(mjd);
            date_mjd(d.year, d.month, d.day) == mjd
        }),
{
    lemma_date_in_range(mjd);
    lemma_before_march_1900(mjd);
}

/// A day of the Gregorian calendar whose Modified Julian Date has 16 bits.
pub open spec fn is_written_day(d: CivilDate) -> bool {
    &&& 1 <= d.month <= 12
    &&& 1 <= d.day <= month_len(d.year, d.month)
    &&& 0 <= date_mjd(d.year, d.month, d.day) <= 65535
}

/// A day of the calendar is the date of its Modified Julian Date.
pub proof fn lemma_date_round_trip(d: CivilDate)
    requires
        is_written_day(d),
    ensures
        civil_date(date_mjd(d.year, d.month, d.day)) == d,
{
    let mjd = date_mjd(d.year, d.month, d.day);
    let l = if d.month < 3 { 1int } else { 0 };
    let y = d.year - 1900 - l;
    let m = d.month + 1 + l * 12;
    assert(100 * (y * 36525 / 100) <= y * 36525 < 100 * (y * 36525 / 100) + 100);
    assert(-43 <= y <= 139);
    assert(formula_day(mjd) == 14956 + d.day + y * 36525 / 100 + m * 306001 / 10000);
    assert(mjd_year(mjd) == y);
    assert(mjd_month(mjd) == m);
}

/// A time on such a day is read back as it was written, the Modified Julian Date
/// being that of the day.
pub proof fn lemma_written_time_read_back(t: EitDateTime)
    requires
        is_written_day(
            CivilDate { year: t.year as int, month: t.month as int, day: t.day as int },
        ),
        t.hour < 100 && t.minute < 100 && t.second < 100,
    ensures
        utc_time_spec(utc_time_bytes(Some(t))) == Some(
            EitDateTime {
                mjd: date_mjd(t.year as int, t.month as int, t.day as int) as u16,
                ..t
            },
        ),
{
    let d = CivilDate { year: t.year as int, month: t.month as int, day: t.day as int };
    let mjd = date_mjd(d.year, d.month, d.day) as u16;
    lemma_date_round_trip(d);
    let w = utc_time_bytes(Some(t));
    assert(w.subrange(0, 2) =~= be16_bytes(mjd));
    lemma_be16_round_trip(mjd, w, 0);
    lemma_bcd_round_trip(t.hour);
    lemma_bcd_round_trip(t.minute);
    lemma_bcd_round_trip(t.second);
    assert(w[2] == bcd_code(t.hour) && w[3] == bcd_code(t.minute) && w[4] == bcd_code(t.second));
    assert(w[4] != 0xFF);
}

/// A DVB time survives being written: what is read of a field, and written, is
/// read again.
pub proof fn lemma_utc_time_round_trip(b: Seq<u8>)
    requires
        b.len() == 5,
        utc_time_spec(b) matches Some(d) ==> d.hour < 100 && d.minute < 100 && d.second < 100,
    ensures
        utc_time_spec(utc_time_bytes(utc_time_spec(b))) == utc_time_spec(b),
{
    match utc_time_spec(b) {
        None => {},
        Some(d) => {
            lemma_utc_time_in_range(b);
            lemma_mjd_round_trip(d.mjd as int);
            let w = utc_time_bytes(Some(d));
            assert(w.subrange(0, 2) =~= be16_bytes(d.mjd));
            lemma_be16_round_trip(d.mjd, w, 0);
            lemma_bcd_round_trip(d.hour);
            lemma_bcd_round_trip(d.minute);
            lemma_bcd_round_trip(d.second);
            assert(w[2] == bcd_code(d.hour) && w[3] == bcd_code(d.minute) && w[4] == bcd_code(
                d.second,
            ));
            assert(w[4] != 0xFF);
        },
    }
}

} // verus!
