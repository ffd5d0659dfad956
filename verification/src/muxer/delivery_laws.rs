//! When frames go out, and what goes along with them.
use vstd::prelude::*;

use crate::build::descriptors::tagged;
use crate::muxer::config::{codec_entry, MpegTsMuxConfig, MuxError, MuxStream, ProgramSpec};
use crate::muxer::deliver::{decode_time, held_count, lead_of, lemma_waits_positive, ticks_27};
use crate::muxer::draining::{called, Call};
use crate::muxer::emit::{guarded, tb_key};
use crate::muxer::flow::{FlowView, PacketView, PlanView, Slot, TrackPlan};
use crate::muxer::laws::{lemma_padding_reaches, lemma_pcr_gap_filled};
use crate::muxer::mux::{program_for, track_for_index, MuxView};
use crate::muxer::one_clock::{
    is_running, keeps_clock, lemma_flushed_keeps, lemma_keeps_on, lemma_keeps_running,
    lemma_steady_keeps,
};
use crate::muxer::packets::{null_packet, psi_packet, psi_take};
use crate::muxer::pes::ring;
use crate::muxer::plan::{
    draft_of, es_info, is_laid, program_laid, stream_with, tracks_laid, DraftView,
};
use crate::muxer::steady::{lemma_clocks_steady, no_stream};
use crate::muxer::stream_read_back::units_of;

verus! {

/// A frame without the header, or of a stream that there is not, is refused and nothing
/// changes.
pub proof fn lemma_frame_refused_early(m: MuxView, pkt: PacketView)
    ensures
        !m.header_written ==> m.packet_written(pkt).mux == m && m.packet_written(pkt).error == Some(
            MuxError::HeaderNotWritten,
        ),
        m.header_written && track_for_index(m.plan, pkt.stream_index, 0) is None
            ==> m.packet_written(pkt).mux == m && m.packet_written(pkt).error == Some(
            MuxError::NoSuchStream { stream_index: pkt.stream_index },
        ),
{
}

/// Once the byte clock runs, a frame with a PTS of a stream that is no video is held, behind
/// those of its stream, and what is due goes out.
pub proof fn lemma_frame_held(m: MuxView, pkt: PacketView, t: int)
    requires
        m.header_written,
        track_for_index(m.plan, pkt.stream_index, 0) == Some(t),
        pkt.pts is Some,
        m.tables_repeated(pkt.pts->0).flow.anchored(),
        !m.plan.tracks[t].is_video,
    ensures
        ({
            let h = m.tables_repeated(pkt.pts->0).flow.holding(t, pkt);
            let o = h.flushed_all(m.plan, h.now());
            &&& m.packet_written(pkt).mux.flow == o.flow
            &&& m.packet_written(pkt).error == o.error
        }),
{
}

/// A held frame goes to the end of its stream's queue, and to no other.
pub proof fn lemma_held_in_order(f: FlowView, t: int, pkt: PacketView, i: int)
    requires
        f.pacer is Some,
        0 <= t < f.pacer->0.held.len(),
        0 <= i < f.pacer->0.held.len(),
    ensures
        ({
            let g = f.holding(t, pkt);
            &&& g.pacer->0.held[t] == f.pacer->0.held[t].push(pkt)
            &&& i != t ==> g.pacer->0.held[i] == f.pacer->0.held[i]
            &&& g.out == f.out
            &&& f.pacer->0.held[t].len() > 0 ==> f.popped(t).pacer->0.held[t]
                == f.pacer->0.held[t].drop_first()
        }),
{
    if f.pacer->0.held[t].len() > 0 {
        assert(f.pacer->0.held[t].skip(1) =~= f.pacer->0.held[t].drop_first());
    }
}

/// Video, a frame without a PTS, and any frame while no byte clock runs, are delivered at
/// once.
pub proof fn lemma_frame_delivered(m: MuxView, pkt: PacketView, t: int)
    requires
        m.header_written,
        track_for_index(m.plan, pkt.stream_index, 0) == Some(t),
    ensures
        ({
            let a = match pkt.pts {
                Some(x) => m.tables_repeated(x),
                None => m,
            };
            !a.flow.anchored() || m.plan.tracks[t].is_video || pkt.pts is None ==> {
                let o = a.flow.delivered(m.plan, t, pkt);
                &&& m.packet_written(pkt).mux.flow == o.flow
                &&& m.packet_written(pkt).error == o.error
            }
        }),
{
}

/// The byte clock runs since a place behind, and every program has its entry.
pub open spec fn clock_runs(f: FlowView, plan: PlanView) -> bool {
    &&& f.anchored()
    &&& f.pacer->0.rate >= 1
    &&& f.pacer->0.anchor matches Some((b, _)) && b <= f.pos()
    &&& f.pacer->0.last_pcr.len() == plan.programs.len()
}

/// A held frame does not go out early: the clock has reached a lead before its decode
/// time, 40 ms, or a quarter of a second for video, when it, and the clock references due
/// with it, are written; and not late.
pub proof fn lemma_held_frame_not_early(f: FlowView, plan: PlanView, t: int, pkt: PacketView) -> (h:
    FlowView)
    requires
        clock_runs(f, plan),
        decode_time(pkt) is Some,
        f.delivered_held(plan, t, pkt).error is None,
    ensures
        ({
            let d = ticks_27(decode_time(pkt)->0);
            &&& d - (if plan.tracks[t].is_video { 6_750_000int } else { 1_080_000 }) <= h.now() <= d
            &&& f.delivered_held(plan, t, pkt) == h.clocks_put(
                plan,
                plan.programs.len() as int,
            ).sent(plan, t, pkt, true)
        }),
{
    let d = ticks_27(decode_time(pkt)->0);
    let target = d - lead_of(plan.tracks[t].is_video);
    assert(f.clock_started(target) == f);
    lemma_padding_reaches(f, plan, target, f.waits(target));
    f.idled(plan, target, f.waits(target))
}

/// The clock that is started with a frame shows a lead before its decode time.
pub proof fn lemma_clock_starts_ahead(f: FlowView, plan: PlanView, t: int, d: i64)
    requires
        f.pacer is Some,
        f.pacer->0.anchor is None,
        f.pacer->0.rate >= 1,
    ensures
        ({
            let target = ticks_27(d) - lead_of(plan.tracks[t].is_video);
            let g = f.clock_started(target);
            &&& g.anchored()
            &&& g.now() == target
            &&& g.out == f.out
        }),
{
    let x = 0 * crate::muxer::flow::TICKS_PER_BYTE_RATE;
    assert(x / f.pacer->0.rate == 0);
}

/// A rate of zero is one bit a second; a rate starts pacing anew, with no clock running and
/// nothing held, and none ends it.
pub proof fn lemma_rate_set(m: MuxView, rate: u64, t: int)
    requires
        0 <= t < m.plan.tracks.len(),
    ensures
        m.rate_set(None).flow.pacer is None,
        m.rate_set(None).flow.out == m.flow.out,
        ({
            let f = m.rate_set(Some(rate)).flow;
            &&& f.pacer is Some
            &&& rate > 0 ==> f.pacer->0.rate == rate
            &&& rate == 0 ==> f.pacer->0.rate == 1
            &&& !f.anchored()
            &&& f.pacer->0.held[t].len() == 0
            &&& f.out == m.flow.out
            &&& f.tracks == m.flow.tracks
        }),
{
}

/// Off the byte clock a frame with a PTS has a clock reference of its program before it or
/// with it, at most 40 ms old: a frame on the PCR PID carries its own, 10 ms behind its
/// PTS.
pub proof fn lemma_reference_with_frame(f: FlowView, plan: PlanView, t: int, pkt: PacketView)
    requires
        f.pacer is None,
        pkt.pts is Some,
        0 <= plan.tracks[t].program < f.programs.len(),
        f.programs.len() == plan.programs.len(),
    ensures
        ({
            let p = plan.tracks[t].program as int;
            let own = plan.tracks[t].pid == plan.programs[p].pcr_pid;
            let g = f.pcrs_before(plan, t, pkt.pts, false);
            let due = guarded(pkt.pts->0);
            &&& !own ==> (g.programs[p].last_pcr matches Some(l) && due - l <= 3600)
            &&& own && f.programs[p].last_pcr is None ==> g == f
            &&& own && f.programs[p].last_pcr is Some ==> (g.programs[p].last_pcr matches Some(l)
                && due - l <= 3600)
            &&& !own && f.programs[p].last_pcr is None ==> g == f.pcr_put(
                plan,
                p,
                ring(due),
                0,
            ).with_last_pcr(p, due)
        }),
{
    let p = plan.tracks[t].program as int;
    let due = guarded(pkt.pts->0);
    if f.programs[p].last_pcr is Some {
        lemma_pcr_gap_filled(f, plan, p, due as int);
    }
}

/// A keyframe is marked as an access point, but on a PCR PID only with a PTS, as only then
/// a clock reference goes along.
pub proof fn lemma_keyframe_marked(plan: PlanView, t: int, pkt: PacketView)
    ensures
        ({
            let u = units_of(plan, t, pkt)[0];
            let clock = plan.programs[plan.tracks[t].program as int].pcr_pid;
            u.random_access == (pkt.keyframe && (plan.tracks[t].pid != clock || pkt.pts is Some))
        }),
{
}

/// The descriptors of a stream in its PMT: its component tag, its language where it has
/// one, and those that were given for it.
pub proof fn lemma_stream_descriptors(t: TrackPlan, extra: Seq<u8>)
    ensures
        t.language is None ==> es_info(t, extra) == seq![0x52u8, 1u8, t.component_tag] + extra,
        t.language matches Some((a, b, c)) ==> es_info(t, extra) == seq![
            0x52u8,
            1u8,
            t.component_tag,
            0x0Au8,
            4u8,
            a,
            b,
            c,
            0u8,
        ] + extra,
{
    match t.language {
        None => {
            assert(es_info(t, extra) =~= seq![0x52u8, 1u8, t.component_tag] + extra);
        },
        Some((a, b, c)) => {
            assert(tagged(0x0A, seq![a, b, c, 0u8]) =~= seq![0x0Au8, 4u8, a, b, c, 0u8]);
            assert(es_info(t, extra) =~= seq![
                0x52u8,
                1u8,
                t.component_tag,
                0x0Au8,
                4u8,
                a,
                b,
                c,
                0u8,
            ] + extra);
        },
    }
}

/// Of streams with the same index the last one counts.
pub proof fn lemma_last_stream_counts(streams: Seq<MuxStream>, index: u32, n: int)
    requires
        0 <= n <= streams.len(),
    ensures
        match stream_with(streams, index, n) {
            Some(i) => 0 <= i < n && streams[i].index == index && forall|j: int|
                i < j < n ==> (#[trigger] streams[j]).index != index,
            None => forall|j: int| 0 <= j < n ==> (#[trigger] streams[j]).index != index,
        },
    decreases n,
{
    if n > 0 {
        lemma_last_stream_counts(streams, index, n - 1);
    }
}

/// Which configurations are refused: without streams, without programs; and a program with
/// number 0, without streams, with a stream that there is not, that is in a program already,
/// or of a codec without a stream type.
pub proof fn lemma_configurations_refused(
    streams: Seq<MuxStream>,
    config: MpegTsMuxConfig,
    d: DraftView,
    spec: ProgramSpec,
    k: int,
)
    requires
        0 < k <= spec.stream_indices@.len(),
        tracks_laid(d, streams, spec, k - 1) is Ok,
    ensures
        streams.len() == 0 ==> draft_of(streams, config) == Err::<DraftView, MuxError>(
            MuxError::NoStreams,
        ),
        streams.len() > 0 && config.programs@.len() == 0 ==> draft_of(streams, config) == Err::<
            DraftView,
            MuxError,
        >(MuxError::NoPrograms),
        spec.program_number == 0 ==> program_laid(d, streams, spec) == Err::<DraftView, MuxError>(
            MuxError::ReservedProgramNumber,
        ),
        ({
            let index = spec.stream_indices@[k - 1];
            let so_far = tracks_laid(d, streams, spec, k - 1)->Ok_0.tracks;
            let r = tracks_laid(d, streams, spec, k);
            match stream_with(streams, index, streams.len() as int) {
                None => r == Err::<DraftView, MuxError>(
                    MuxError::UnknownStream {
                        program_number: spec.program_number,
                        stream_index: index,
                    },
                ),
                Some(i) => if is_laid(so_far, index) {
                    r == Err::<DraftView, MuxError>(
                        MuxError::StreamAssignedTwice { stream_index: index },
                    )
                } else if codec_entry(streams[i].codec_id@) is None {
                    r == Err::<DraftView, MuxError>(
                        MuxError::UnsupportedCodec { stream_index: index },
                    )
                } else {
                    r is Ok
                },
            }
        }),
{
}

/// A program without streams is refused.
pub proof fn lemma_empty_program_refused(d: DraftView, streams: Seq<MuxStream>, spec: ProgramSpec)
    requires
        spec.stream_indices@.len() == 0,
        spec.program_number != 0,
    ensures
        program_laid(d, streams, spec) == Err::<DraftView, MuxError>(
            MuxError::EmptyProgram { program_number: spec.program_number },
        ),
{
}

/// A section waits, packet by packet, for its transport buffer, which drains at 1 Mbit/s;
/// PAT, CAT and maps share one, and wait for the system buffer too.
pub proof fn lemma_sections_wait(
    f: FlowView,
    plan: PlanView,
    pid: u16,
    slot: Slot,
    rest: Seq<u8>,
    start: bool,
)
    requires
        start || rest.len() > 0,
    ensures
        ({
            let key = tb_key(plan, pid);
            let a = f.tb_paced(key, 1_000_000);
            let b = if plan.is_system(pid) { a.bsys_paced() } else { a };
            let system = pid == 0 || pid == 1 || exists|p: int|
                0 <= p < plan.programs.len() && (#[trigger] plan.programs[p]).pmt_pid == pid;
            &&& plan.is_system(pid) <==> system
            &&& plan.is_system(pid) ==> key == 0x2000
            &&& !plan.is_system(pid) ==> key == pid
            &&& pid < 0x2000 ==> f.section_put(pid, slot, key, rest, start) == b.put(
                psi_packet(pid, b.counter(slot), start, rest),
            ).count_table(slot).section_put(
                pid,
                slot,
                key,
                rest.skip(psi_take(start, rest.len() as int)),
                false,
            )
        }),
{
}

/// Waiting ends when the clock has reached the time to wait for.
pub proof fn lemma_wait_ends(f: FlowView, plan: PlanView, target: int, fuel: nat)
    requires
        is_running(f),
        f.pacer->0.rate >= 1,
        f.pacer->0.anchor matches Some((b, _)) && b <= f.pos(),
        fuel >= f.waits(target),
        f.waited(plan, target, fuel).error is None,
    ensures
        f.waited(plan, target, fuel).flow.now() >= target,
    decreases fuel,
{
    if f.now() < target {
        lemma_waits_positive(f, target);
        let o = f.flushed_all(plan, f.now());
        lemma_flushed_keeps(f, plan, f.now(), held_count(f.pacer->0.held));
        lemma_keeps_running(f, o.flow);
        if o.flow.now() < target {
            let n = plan.programs.len() as int;
            let a = o.flow.clocks_put(plan, n);
            lemma_clocks_steady(o.flow, plan, n);
            lemma_steady_keeps(o.flow, a, no_stream());
            lemma_keeps_on(f, o.flow, a);
            lemma_keeps_running(f, a);
            let b = a.put(null_packet());
            assert(null_packet().len() == 188);
            assert(b.pos() >= f.pos() + 188 && b.pacer == a.pacer && a.pacer->0.rate
                == f.pacer->0.rate && a.pacer->0.anchor == f.pacer->0.anchor) by {
                reveal(keeps_clock);
            }
            lemma_wait_ends(b, plan, target, (fuel - 1) as nat);
        }
    }
}

/// A frame that is delivered at once does not go out early either.
pub proof fn lemma_frame_not_early(f: FlowView, plan: PlanView, t: int, pkt: PacketView)
    requires
        is_running(f),
        f.pacer->0.rate >= 1,
        f.pacer->0.anchor matches Some((b, _)) && b <= f.pos(),
        decode_time(pkt) is Some,
        f.delivered(plan, t, pkt).error is None,
    ensures
        ({
            let d = ticks_27(decode_time(pkt)->0);
            let lead = if plan.tracks[t].is_video { 6_750_000int } else { 1_080_000 };
            let o = f.waited(plan, d - lead, f.waits(d - lead));
            &&& o.error is None
            &&& d - lead <= o.flow.now() <= d
        }),
{
    let d = ticks_27(decode_time(pkt)->0);
    let target = d - lead_of(plan.tracks[t].is_video);
    assert(f.clock_started(target) == f);
    lemma_wait_ends(f, plan, target, f.waits(target));
}

/// The header is the tables, and frames may follow; the end of the stream is every held
/// frame and then the tables, but for a held frame that is refused.
pub proof fn lemma_tables_at_both_ends(m: MuxView)
    ensures
        ({
            let n = m.plan.tables.len() as int;
            let h = called(m, Call::Header);
            let e = called(m, Call::Trailer);
            let o = m.flow.released_all(m.plan);
            &&& h.error is None
            &&& h.mux.header_written
            &&& h.mux.flow == m.flow.tables_put(m.plan, n)
            &&& e.error == o.error
            &&& o.error is None ==> e.mux.flow == o.flow.tables_put(m.plan, n)
            &&& o.error is Some ==> e.mux.flow == o.flow
            &&& m.flow.pacer is None ==> o.flow == m.flow && o.error is None
        }),
{
}

/// A new time base of a program that there is not is refused and nothing changes; else what
/// is held goes out on the old one first.
pub proof fn lemma_time_base_ends(m: MuxView, number: u16)
    ensures
        ({
            let r = m.discontinuity_armed(number);
            let o = m.flow.released_all(m.plan);
            &&& program_for(m.plan, number, 0) is None ==> r.mux == m && r.error == Some(
                MuxError::NoSuchProgram { program_number: number },
            )
            &&& program_for(m.plan, number, 0) matches Some(p) ==> {
                &&& r.error == o.error
                &&& o.error is None ==> r.mux.flow == m.with_flow(o.flow).base_broken(p).flow
            }
        }),
{
}

} // verus!
