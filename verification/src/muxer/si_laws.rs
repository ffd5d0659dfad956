//! The service information that is written says what was configured: services, the
//! network, and events.
use vstd::prelude::*;

use crate::bits::lemma_byte_bits;
use crate::build::descriptors::{service_data, short_event_data, tagged, utc_time_bytes};
use crate::build::round_trip::{
    announces, is_coded_status, lemma_bcd_round_trip, lemma_entries_round_trip, lemma_flag_bits,
    lemma_low_bits_kept, lemma_nit_body, lemma_pid_kept, lemma_section_round_trip,
    lemma_status_round_trip,
};
use crate::build::sections::{
    eit_body, entries_bytes, nit_body, nit_entry, pat_body, sdt_body, sdt_entry, sdt_flags, sealed,
    status_tag, tagged_len, LEN_TAG, PSI_TAG, SI_TAG,
};
use crate::bytes::{be16_bytes, lemma_be16_round_trip};
use crate::muxer::config::{EventSpec, MpegTsMuxConfig, ProgramSpec};
use crate::muxer::flow::ProgramPlan;
use crate::muxer::plan::{
    eits_of, event_entry, nit_of, pat_of, pmt_of, sdt_of, service_entries, tables_of, DraftView,
};
use crate::psi::dvb::{
    eit_error, nit_error, nit_loop, sdt_error, EIT_ACTUAL_PF_TABLE_ID, NIT_ACTUAL_TABLE_ID,
    RunningStatus, SDT_ACTUAL_TABLE_ID,
};
use crate::psi::entries::{loop_entries, LoopEntry};
use crate::psi::section::{section_body, section_header};
use crate::psi::section_laws::{lemma_numbers_at, length_at, word_at};
use crate::psi::table_laws::{digits, lemma_digits};
use crate::psi::tables::PAT_TABLE_ID;

verus! {

/// Loop entry `e` describes the service of program `spec`: its number, no EIT announced,
/// running, not scrambled, and a service descriptor with its type and names.
pub open spec fn describes_service(e: LoopEntry, spec: ProgramSpec) -> bool {
    &&& e.head.len() == 5
    &&& word_at(e.head, 0) == spec.program_number
    &&& e.head[2] % 4 == 0
    &&& e.head[3] / 32 == 4
    &&& e.head[3] / 16 % 2 == 0
    &&& length_at(e.head, 3) == e.descriptors.len()
    &&& spec.service matches Some(s) && e.descriptors == tagged(
        0x48,
        service_data(s.service_type, s.provider_name@, s.service_name@),
    )
}

proof fn lemma_service_entry(spec: ProgramSpec)
    requires
        spec.service is Some,
    ensures
        ({
            let s = spec.service->0;
            let e = sdt_entry(
                spec.program_number,
                sdt_flags(false, false),
                status_tag(RunningStatus::Running, false),
                tagged(0x48, service_data(s.service_type, s.provider_name@, s.service_name@)),
            );
            &&& describes_service(e, spec)
            &&& announces(e, 5)
        }),
{
    let s = spec.service->0;
    let d = tagged(0x48, service_data(s.service_type, s.provider_name@, s.service_name@));
    let tag = status_tag(RunningStatus::Running, false);
    let e = sdt_entry(spec.program_number, sdt_flags(false, false), tag, d);
    let h = e.head;
    assert(d.len() <= 257);
    let w = be16_bytes(tagged_len(tag, d.len()));
    assert(h[3] == w[0] && h[4] == w[1]);
    lemma_status_round_trip(RunningStatus::Running, false, d.len());
    lemma_byte_bits(h[3]);
    lemma_byte_bits(h[2]);
    lemma_flag_bits(false, false);
    assert(h[2] == sdt_flags(false, false));
    assert(h.subrange(0, 2) =~= be16_bytes(spec.program_number));
    lemma_be16_round_trip(spec.program_number, h, 0);
    lemma_numbers_at(h, 0);
    lemma_numbers_at(h, 3);
}

/// Every program with a service has its entry, in the order of the programs, and no other
/// program has one.
pub proof fn lemma_services_described(specs: Seq<ProgramSpec>, n: int) -> (at: Seq<int>)
    requires
        0 <= n <= specs.len(),
    ensures
        ({
            let es = service_entries(specs, n);
            &&& at.len() == es.len()
            &&& forall|i: int|
                0 <= i < es.len() ==> 0 <= #[trigger] at[i] < n && describes_service(
                    es[i],
                    specs[at[i]],
                ) && announces(es[i], 5)
            &&& forall|i: int, j: int| 0 <= i < j < es.len() ==> #[trigger] at[i] < #[trigger] at[j]
            &&& forall|p: int|
                0 <= p < n && (#[trigger] specs[p]).service is Some ==> at.contains(p)
        }),
    decreases n,
{
    if n <= 0 {
        Seq::empty()
    } else {
        let prior = lemma_services_described(specs, n - 1);
        let old_es = service_entries(specs, n - 1);
        let es = service_entries(specs, n);
        if specs[n - 1].service is Some {
            lemma_service_entry(specs[n - 1]);
            let at = prior.push(n - 1);
            assert forall|i: int| 0 <= i < es.len() implies 0 <= #[trigger] at[i] < n
                && describes_service(es[i], specs[at[i]]) && announces(es[i], 5) by {
                if i < old_es.len() {
                    assert(es[i] == old_es[i] && at[i] == prior[i]);
                }
            }
            assert forall|i: int, j: int| 0 <= i < j < es.len() implies #[trigger] at[i]
                < #[trigger] at[j] by {
                assert(at[i] == prior[i]);
                if j < old_es.len() {
                    assert(at[j] == prior[j]);
                }
            }
            assert forall|p: int| 0 <= p < n && (#[trigger] specs[p]).service is Some implies
                at.contains(p) by {
                if p < n - 1 {
                    assert(prior.contains(p));
                    let i = choose|i: int| 0 <= i < prior.len() && prior[i] == p;
                    assert(at[i] == p);
                } else {
                    assert(at[at.len() - 1] == p);
                }
            }
            at
        } else {
            prior
        }
    }
}

/// The SDT is on PID 17, of the actual transport stream, with the ids of stream and
/// network, and with the services; there is none without a service.
pub proof fn lemma_sdt_written(config: MpegTsMuxConfig)
    requires
        ({
            let es = service_entries(config.programs@, config.programs@.len() as int);
            sdt_body(config.original_network_id, es).len() <= 4086
        }),
    ensures
        ({
            let es = service_entries(config.programs@, config.programs@.len() as int);
            &&& es.len() == 0 ==> sdt_of(config).len() == 0
            &&& es.len() > 0 ==> {
                let t = sdt_of(config)[0];
                let s = t.section;
                &&& sdt_of(config).len() == 1
                &&& t.pid == 17
                &&& s[0] == 0x42
                &&& sdt_error(s) is None
                &&& section_header(s).table_id_extension == config.transport_stream_id
                &&& word_at(section_body(s), 0) == config.original_network_id
                &&& loop_entries(section_body(s).skip(3), 5) == Ok::<_, crate::TsError>(es)
            }
        }),
{
    let es = service_entries(config.programs@, config.programs@.len() as int);
    if es.len() > 0 {
        let at = lemma_services_described(config.programs@, config.programs@.len() as int);
        assert forall|i: int| 0 <= i < es.len() implies #[trigger] announces(es[i], 5) by {
            assert(at[i] >= 0);
        }
        lemma_sdt_section(config.transport_stream_id, config.original_network_id, es);
    }
}

proof fn lemma_sdt_section(tsid: u16, network: u16, es: Seq<LoopEntry>)
    requires
        sdt_body(network, es).len() <= 4086,
        forall|i: int| 0 <= i < es.len() ==> #[trigger] announces(es[i], 5),
    ensures
        ({
            let s = sealed(SDT_ACTUAL_TABLE_ID, SI_TAG, tsid, 0, sdt_body(network, es));
            &&& s[0] == 0x42
            &&& sdt_error(s) is None
            &&& section_header(s).table_id_extension == tsid
            &&& word_at(section_body(s), 0) == network
            &&& loop_entries(section_body(s).skip(3), 5) == Ok::<_, crate::TsError>(es)
        }),
{
    let body = sdt_body(network, es);
    assert(0xF000u16 & 0x0FFF == 0) by {
        lemma_pid_kept(0);
    }
    lemma_section_round_trip(SDT_ACTUAL_TABLE_ID, SI_TAG, tsid, 0, body);
    assert(loop_entries(body.skip(3), 5) == Ok::<_, crate::TsError>(es)) by {
        assert(body.skip(3) =~= entries_bytes(es));
        lemma_entries_round_trip(es, 5);
    }
    assert(word_at(body, 0) == network) by {
        assert(body.subrange(0, 2) =~= be16_bytes(network));
        lemma_be16_round_trip(network, body, 0);
        lemma_numbers_at(body, 0);
    }
}

/// The NIT is on PID 16, of the actual network, with its id, its name in a descriptor
/// before its further ones, and with this transport stream; there is none without a
/// network.
pub proof fn lemma_nit_written(config: MpegTsMuxConfig)
    requires
        config.network matches Some(net) ==> net.network_descriptors@.len()
            + net.transport_descriptors@.len() <= 3800,
    ensures
        config.network is None ==> nit_of(config).len() == 0,
        config.network matches Some(net) ==> {
            let t = nit_of(config)[0];
            let s = t.section;
            let body = section_body(s);
            let d = tagged(0x40, net.network_name@) + net.network_descriptors@;
            &&& nit_of(config).len() == 1
            &&& t.pid == 16
            &&& s[0] == 0x40
            &&& nit_error(s) is None
            &&& section_header(s).table_id_extension == net.network_id
            &&& length_at(body, 0) == d.len()
            &&& body.subrange(2, 2 + d.len() as int) == d
            &&& nit_loop(body).len() == 6 + net.transport_descriptors@.len()
            &&& word_at(nit_loop(body), 0) == config.transport_stream_id
            &&& word_at(nit_loop(body), 2) == config.original_network_id
            &&& nit_loop(body).skip(6) == net.transport_descriptors@
        },
{
    if config.network is Some {
        let net = config.network->0;
        let d = tagged(0x40, net.network_name@) + net.network_descriptors@;
        assert(d.len() <= 257 + net.network_descriptors@.len());
        lemma_nit_section(
            net.network_id,
            d,
            config.transport_stream_id,
            config.original_network_id,
            net.transport_descriptors@,
        );
    }
}

proof fn lemma_nit_section(id: u16, d: Seq<u8>, tsid: u16, network: u16, x: Seq<u8>)
    requires
        d.len() + x.len() <= 4060,
    ensures
        ({
            let body = nit_body(d, seq![nit_entry(tsid, network, x)]);
            let s = sealed(NIT_ACTUAL_TABLE_ID, SI_TAG, id, 0, body);
            &&& s[0] == 0x40
            &&& nit_error(s) is None
            &&& section_header(s).table_id_extension == id
            &&& section_body(s) == body
            &&& length_at(body, 0) == d.len()
            &&& body.subrange(2, 2 + d.len() as int) == d
            &&& nit_loop(body).len() == 6 + x.len()
            &&& word_at(nit_loop(body), 0) == tsid
            &&& word_at(nit_loop(body), 2) == network
            &&& nit_loop(body).skip(6) == x
        }),
{
    let e = nit_entry(tsid, network, x);
    let es = seq![e];
    let body = nit_body(d, es);
    let l = entries_bytes(es);
    assert(l == e.head + e.descriptors) by {
        assert(es.drop_last() =~= Seq::<LoopEntry>::empty());
        assert(entries_bytes(Seq::<LoopEntry>::empty()).len() == 0);
        assert(l =~= e.head + e.descriptors);
    }
    lemma_nit_body(d, es);
    assert(0xF000u16 & 0x0FFF == 0) by {
        lemma_pid_kept(0);
    }
    lemma_section_round_trip(NIT_ACTUAL_TABLE_ID, SI_TAG, id, 0, body);
    assert(announces(e, 6)) by {
        lemma_low_bits_kept(LEN_TAG, x.len() as u16);
        let w = be16_bytes(tagged_len(LEN_TAG, x.len()));
        assert(e.head[4] == w[0] && e.head[5] == w[1]);
    }
    lemma_entries_round_trip(es, 6);
    assert(word_at(l, 0) == tsid && word_at(l, 2) == network) by {
        assert(l.subrange(0, 2) =~= be16_bytes(tsid));
        lemma_be16_round_trip(tsid, l, 0);
        assert(l.subrange(2, 4) =~= be16_bytes(network));
        lemma_be16_round_trip(network, l, 2);
        lemma_numbers_at(l, 0);
        lemma_numbers_at(l, 2);
    }
    lemma_numbers_at(body, 0);
    assert(l.skip(6) =~= x);
}

/// Loop entry `e` describes event `x`: its id, start, duration and status, not scrambled,
/// and its texts in a descriptor, if it has any.
pub open spec fn describes_event(e: LoopEntry, x: EventSpec) -> bool {
    &&& e.head.len() == 12
    &&& word_at(e.head, 0) == x.event_id
    &&& e.head.subrange(2, 7) == utc_time_bytes(x.start_time)
    &&& digits(e.head[7]) == x.duration.hours
    &&& digits(e.head[8]) == x.duration.minutes
    &&& digits(e.head[9]) == x.duration.seconds
    &&& RunningStatus::coded(e.head[10] / 32) == x.running_status
    &&& e.head[10] / 16 % 2 == 0
    &&& length_at(e.head, 10) == e.descriptors.len()
    &&& if x.event_name@.len() == 0 && x.text@.len() == 0 {
        e.descriptors.len() == 0
    } else {
        e.descriptors == tagged(0x4D, short_event_data(x.language@, x.event_name@, x.text@))
    }
}

/// The entry of an event describes it.
pub proof fn lemma_event_described(x: EventSpec)
    requires
        is_coded_status(x.running_status),
        x.duration.hours < 100,
        x.duration.minutes < 100,
        x.duration.seconds < 100,
    ensures
        describes_event(event_entry(x), x),
        announces(event_entry(x), 12),
{
    let e = event_entry(x);
    let h = e.head;
    let n = e.descriptors.len();
    let tag = status_tag(x.running_status, false);
    assert(n <= 257);
    lemma_status_round_trip(x.running_status, false, n);
    let w = be16_bytes(tagged_len(tag, n));
    assert(h[10] == w[0] && h[11] == w[1]);
    assert(h.subrange(0, 2) =~= be16_bytes(x.event_id));
    lemma_be16_round_trip(x.event_id, h, 0);
    lemma_numbers_at(h, 0);
    lemma_numbers_at(h, 10);
    assert(h.subrange(2, 7) =~= utc_time_bytes(x.start_time));
    lemma_bcd_round_trip(x.duration.hours);
    lemma_bcd_round_trip(x.duration.minutes);
    lemma_bcd_round_trip(x.duration.seconds);
    lemma_digits(h[7]);
    lemma_digits(h[8]);
    lemma_digits(h[9]);
    lemma_byte_bits(h[10]);
}

/// The events of a program are written as an EIT on PID 18, present and following of the
/// actual transport stream, for the service of its number, one entry each.
pub proof fn lemma_eit_written(config: MpegTsMuxConfig, n: int)
    requires
        0 < n <= config.programs@.len(),
        config.programs@[n - 1].events@.len() > 0,
        forall|i: int|
            0 <= i < config.programs@[n - 1].events@.len() ==> announces(
                event_entry(#[trigger] config.programs@[n - 1].events@[i]),
                12,
            ),
        entries_bytes(
            config.programs@[n - 1].events@.map_values(|e: EventSpec| event_entry(e)),
        ).len() <= 4080,
    ensures
        ({
            let spec = config.programs@[n - 1];
            let es = spec.events@.map_values(|e: EventSpec| event_entry(e));
            let t = eits_of(config, n).last();
            let s = t.section;
            let body = section_body(s);
            &&& eits_of(config, n).len() == eits_of(config, n - 1).len() + 1
            &&& t.pid == 18
            &&& s[0] == 0x4E
            &&& eit_error(s) is None
            &&& section_header(s).table_id_extension == spec.program_number
            &&& word_at(body, 0) == config.transport_stream_id
            &&& word_at(body, 2) == config.original_network_id
            &&& body[4] == 0
            &&& body[5] == 0x4E
            &&& loop_entries(body.skip(6), 12) == Ok::<_, crate::TsError>(es)
        }),
{
    let spec = config.programs@[n - 1];
    let es = spec.events@.map_values(|e: EventSpec| event_entry(e));
    let body = eit_body(
        config.transport_stream_id,
        config.original_network_id,
        EIT_ACTUAL_PF_TABLE_ID,
        es,
    );
    lemma_pid_kept(0);
    lemma_section_round_trip(EIT_ACTUAL_PF_TABLE_ID, SI_TAG, spec.program_number, 0, body);
    assert forall|i: int| 0 <= i < es.len() implies #[trigger] announces(es[i], 12) by {
        assert(announces(event_entry(spec.events@[i]), 12));
    }
    lemma_entries_round_trip(es, 12);
    assert(body.skip(6) =~= entries_bytes(es));
    assert(body.subrange(0, 2) =~= be16_bytes(config.transport_stream_id));
    lemma_be16_round_trip(config.transport_stream_id, body, 0);
    assert(body.subrange(2, 4) =~= be16_bytes(config.original_network_id));
    lemma_be16_round_trip(config.original_network_id, body, 2);
    lemma_numbers_at(body, 0);
    lemma_numbers_at(body, 2);
}

/// The PAT comes first, on PID 0, then the map of each program on its PID, then SDT, NIT
/// and EITs.
pub proof fn lemma_order_of_tables(d: DraftView, config: MpegTsMuxConfig, p: int)
    requires
        0 <= p < d.programs.len(),
    ensures
        ({
            let ts = tables_of(d, config);
            &&& ts[0].pid == 0
            &&& ts[1 + p] == pmt_of(d, p)
            &&& ts[1 + p].pid == d.programs[p].pmt_pid
            &&& ts.skip(1 + d.programs.len() as int) == sdt_of(config) + nit_of(config) + eits_of(
                config,
                config.programs@.len() as int,
            )
        }),
{
    let ts = tables_of(d, config);
    assert(ts.skip(1 + d.programs.len() as int) =~= sdt_of(config) + nit_of(config) + eits_of(
        config,
        config.programs@.len() as int,
    ));
}

/// The PAT is that of the transport stream, in force, and the only section of its table.
pub proof fn lemma_pat_written(d: DraftView, config: MpegTsMuxConfig)
    requires
        pat_body(d.programs.map_values(|p: ProgramPlan| (p.number, p.pmt_pid))).len() <= 4086,
    ensures
        ({
            let s = pat_of(d, config).section;
            let h = section_header(s);
            &&& pat_of(d, config).pid == 0
            &&& s[0] == 0x00
            &&& h.table_id_extension == config.transport_stream_id
            &&& h.version_number == 0
            &&& h.current_next_indicator
            &&& h.section_number == 0
            &&& h.last_section_number == 0
        }),
{
    assert(0xB000u16 & 0x0FFF == 0) by {
        lemma_pid_kept(0);
    }
    let body = pat_body(d.programs.map_values(|p: ProgramPlan| (p.number, p.pmt_pid)));
    lemma_section_round_trip(PAT_TABLE_ID, PSI_TAG, config.transport_stream_id, 0, body);
    lemma_byte_bits(0);
}

} // verus!
