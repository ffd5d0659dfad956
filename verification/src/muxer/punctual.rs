//! Without pacing, a multiplexer whose timestamps do not go back keeps its clocks
//! on time.
use vstd::prelude::*;

use crate::muxer::clocking::{
    heard, knows, lemma_chain_on_time, lemma_frame_heard, lemma_moves_on, lemma_nothing_on_time,
    lemma_pcr_on_time, may_come, none_late, on_time, same_elsewhere,
};
use crate::muxer::config::SpliceSpec;
use crate::muxer::draining::{called, Call};
use crate::muxer::emit::{guarded, tb_key};
use crate::muxer::flow::{FlowView, PacketView, PlanView, ProgramFlow};
use crate::muxer::frame::Riders;
use crate::muxer::frame_read_back::{
    frame_units, gains, lemma_frame_parses, lemma_frame_put_read_back, reads_as_units,
};
use crate::muxer::mux::{program_for, track_for_index, MuxView};
use crate::muxer::pes::{frame_error, frame_packets, lemma_ring_bound, ring};
use crate::muxer::plan_laws::laid_out;
use crate::muxer::read_back::packets_on;
use crate::muxer::settling::{homed, is_clocked};
use crate::muxer::stream_read_back::{counts, lemma_section_elsewhere};
use crate::muxer::well_formed::{
    is_sound, lemma_fresh_sound, lemma_packet_written_sound, lemma_program_in_range,
    lemma_settings_sound, lemma_signals_sound, lemma_tables_sound, lemma_tables_written_sound,
    lemma_track_in_range, lemma_trailer_written_sound, orderly, sound,
};
use crate::pes::reassemble::Reassembly;

verus! {

/// The timestamp of a frame on stream `t` does not go back behind the clock that
/// the frame is to carry.
pub open spec fn keeps_time(f: FlowView, plan: PlanView, t: int, pkt: PacketView) -> bool {
    let pf = f.programs[plan.tracks[t].program as int];
    is_clocked(plan, t) ==> match (pkt.pts, pf.last_pcr) {
        (Some(x), Some(last)) => last <= guarded(x),
        _ => true,
    }
}

/// The clocks after a frame of program `p` with PTS `pts`: none but that of `p` has
/// moved, and not past the frame.
pub open spec fn moves_on(
    a: Seq<ProgramFlow>,
    b: Seq<ProgramFlow>,
    p: int,
    pts: Option<i64>,
) -> bool {
    &&& same_elsewhere(a, b, p)
    &&& b[p].last_pcr == a[p].last_pcr || (pts matches Some(x) && (
    b[p].last_pcr matches Some(l) && l <= guarded(x)))
}

/// The clock references before a frame are on time, and the one in it can be.
proof fn lemma_before_on_time(f: FlowView, plan: PlanView, t: int, pts: Option<i64>)
    requires
        homed(plan),
        plan.wf(),
        sound(f, plan),
        f.pacer is None,
        on_time(f.out, f.programs, plan),
        0 <= t < plan.tracks.len(),
    ensures
        ({
            let b = f.pcrs_before(plan, t, pts, false);
            let p = plan.tracks[t].program as int;
            &&& on_time(b.out, b.programs, plan)
            &&& b.tracks == f.tracks
            &&& b.programs.len() == f.programs.len()
            &&& b.pacer is None
            &&& moves_on(f.programs, b.programs, p, pts)
            &&& is_clocked(plan, t) ==> match (pts, f.programs[p].last_pcr) {
                (Some(x), Some(last)) => last <= guarded(x) ==> (
                b.programs[p].last_pcr matches Some(l) && l <= guarded(x) <= l + 3600),
                _ => b == f,
            }
        }),
{
    let p = plan.tracks[t].program as int;
    assert(f.tracks.len() == plan.tracks.len() && f.programs.len() == plan.programs.len()
        && forall|i: int| 0 <= i < f.tracks.len() ==> (#[trigger] f.tracks[i]).cc < 16) by {
        reveal(sound);
        reveal(orderly);
        assert forall|i: int| 0 <= i < f.tracks.len() implies (#[trigger] f.tracks[i]).cc < 16 by {
            assert(f.tracks[i].wf());
        }
    }
    match pts {
        None => {},
        Some(x) => {
            lemma_chain_on_time(f, plan, p, guarded(x) as int);
            if f.programs[p].last_pcr is None {
                lemma_pcr_on_time(f, plan, p, guarded(x));
            }
        },
    }
}

/// A frame that is sent keeps the clocks on time.
pub proof fn lemma_sent_on_time(f: FlowView, plan: PlanView, t: int, pkt: PacketView)
    requires
        homed(plan),
        plan.wf(),
        sound(f, plan),
        f.pacer is None,
        on_time(f.out, f.programs, plan),
        0 <= t < plan.tracks.len(),
        keeps_time(f, plan, t, pkt),
    ensures
        ({
            let g = f.sent(plan, t, pkt, false).flow;
            &&& on_time(g.out, g.programs, plan)
            &&& g.pacer is None
            &&& moves_on(f.programs, g.programs, plan.tracks[t].program as int, pkt.pts)
        }),
{
    reveal(FlowView::sent);
    let track = plan.tracks[t];
    let p = track.program as int;
    let own = track.pid == plan.programs[p].pcr_pid;
    let b = f.pcrs_before(plan, t, pkt.pts, false);
    lemma_before_on_time(f, plan, t, pkt.pts);
    if frame_error(track.stream_id, pkt.pts, pkt.dts, pkt.data.len() as int) is None {
        let packets = frame_packets(track.stream_id, pkt.pts, pkt.dts, pkt.data);
        let n = packets.len() as int;
        let inline = own && pkt.pts is Some;
        let c = if inline { b.with_last_pcr(p, guarded(pkt.pts->0)) } else { b };
        let riders = Riders {
            pcr: if inline { Some((ring(guarded(pkt.pts->0)), 0u16)) } else { None },
            random_access: pkt.keyframe && (!own || inline),
            splice: c.tracks[t].splice,
        };
        let d = c.splice_taken(t);
        let g = d.frame_put(plan, t, riders, packets, n);
        assert(f.tracks.len() == plan.tracks.len() && f.tracks[t].wf() && f.programs.len()
            == plan.programs.len()) by {
            reveal(sound);
            reveal(orderly);
        }
        assert(plan.tracks[t].pid < 0x1FFF && plan.tracks[t].program < plan.programs.len()) by {
            reveal(laid_out);
        }
        if inline {
            lemma_ring_bound(guarded(pkt.pts->0));
        }
        assert(riders.wf());
        let units = frame_units(
            track.stream_id,
            pkt.pts,
            pkt.dts,
            pkt.data,
            riders.random_access,
        );
        lemma_frame_parses(track.stream_id, pkt.pts, pkt.dts, pkt.data, riders.random_access);
        assert(forall|i: int| 0 <= i < packets.len() ==> (#[trigger] packets[i]).len() > 0) by {
            reveal(reads_as_units);
        }
        let _ = lemma_frame_put_read_back(
            d,
            plan,
            t,
            riders,
            packets,
            units,
            n,
            Reassembly::empty(),
        );
        lemma_frame_heard(d, plan, t, riders, packets, n);
        assert(packets.len() > 0);
        assert(may_come(heard(packets_on(b.out, track.pid)), d.programs[p], riders.pcr)) by {
            reveal(on_time);
            if inline && b.programs[p].last_pcr is Some {
                lemma_moves_on(b.programs[p].last_pcr->0, guarded(pkt.pts->0));
            }
        }
        assert forall|j: int| 0 <= j < plan.tracks.len() && is_clocked(plan, j) implies none_late(
            packets_on(g.out, (#[trigger] plan.tracks[j]).pid),
        ) && knows(
            heard(packets_on(g.out, plan.tracks[j].pid)),
            g.programs[plan.tracks[j].program as int],
        ) by {
            reveal(on_time);
            reveal(laid_out);
            let q = plan.tracks[j].pid;
            assert(none_late(packets_on(b.out, q)) && knows(
                heard(packets_on(b.out, q)),
                b.programs[plan.tracks[j].program as int],
            ));
            if j != t {
                assert(q != track.pid && q < 0x1FFF);
                assert(packets_on(g.out, q) == packets_on(d.out, q)) by {
                    reveal(gains);
                }
                assert(inline ==> plan.tracks[j].program != p);
            }
        }
        reveal(on_time);
    }
}

/// Tables leave the clocks alone.
pub(crate) proof fn lemma_tables_programs(f: FlowView, plan: PlanView, n: int)
    requires
        homed(plan),
        plan.wf(),
        sound(f, plan),
        n <= plan.tables.len(),
    ensures
        f.tables_put(plan, n).programs == f.programs,
        f.pacer is None ==> f.tables_put(plan, n).pacer is None,
    decreases n,
{
    if n > 0 {
        lemma_tables_programs(f, plan, n - 1);
        lemma_tables_sound(f, plan, n - 1);
        let a = f.tables_put(plan, n - 1);
        let x = plan.tables[n - 1];
        assert(counts(a, x.slot)) by {
            reveal(sound);
            reveal(orderly);
            assert(plan.has_slot(x.slot));
        }
        assert(x.pid < 0x1FFF) by {
            reveal(laid_out);
        }
        let other = if x.pid == 0 { 1u16 } else { 0u16 };
        lemma_section_elsewhere(
            a,
            x.pid,
            x.slot,
            tb_key(plan, x.pid),
            x.section,
            true,
            other,
        );
    }
}

/// Tables leave the clocks on time.
pub proof fn lemma_tables_on_time(f: FlowView, plan: PlanView, n: int)
    requires
        homed(plan),
        plan.wf(),
        sound(f, plan),
        f.pacer is None,
        on_time(f.out, f.programs, plan),
        n <= plan.tables.len(),
    ensures
        ({
            let g = f.tables_put(plan, n);
            on_time(g.out, g.programs, plan) && g.pacer is None
        }),
    decreases n,
{
    if n > 0 {
        lemma_tables_on_time(f, plan, n - 1);
        lemma_tables_sound(f, plan, n - 1);
        let a = f.tables_put(plan, n - 1);
        let x = plan.tables[n - 1];
        let key = tb_key(plan, x.pid);
        let g = a.section_put(x.pid, x.slot, key, x.section, true);
        assert(counts(a, x.slot)) by {
            reveal(sound);
            reveal(orderly);
            assert(plan.has_slot(x.slot));
        }
        assert(x.pid < 0x1FFF) by {
            reveal(laid_out);
        }
        lemma_tables_programs(f, plan, n - 1);
        lemma_tables_programs(f, plan, n);
        assert forall|t: int| 0 <= t < plan.tracks.len() implies packets_on(
            g.out,
            (#[trigger] plan.tracks[t]).pid,
        ) == packets_on(a.out, plan.tracks[t].pid) by {
            assert(plan.tracks[t].pid < 0x1FFF && x.pid != plan.tracks[t].pid) by {
                reveal(laid_out);
                assert(plan.tables[n - 1].pid != plan.tracks[t].pid);
            }
            lemma_section_elsewhere(a, x.pid, x.slot, key, x.section, true, plan.tracks[t].pid);
        }
        reveal(on_time);
    }
}

/// A break of the time base is signalled.
proof fn lemma_break_on_time(f: FlowView, plan: PlanView, p: int)
    requires
        on_time(f.out, f.programs, plan),
        plan.wf(),
        0 <= p < plan.programs.len(),
        f.programs.len() == plan.programs.len(),
    ensures
        on_time(
            f.out,
            f.programs.update(p, ProgramFlow { last_pcr: None, discontinuity: true }),
            plan,
        ),
{
    reveal(on_time);
    let now = f.programs.update(p, ProgramFlow { last_pcr: None, discontinuity: true });
    assert forall|t: int| 0 <= t < plan.tracks.len() && is_clocked(plan, t) implies none_late(
        packets_on(f.out, (#[trigger] plan.tracks[t]).pid),
    ) && knows(
        heard(packets_on(f.out, plan.tracks[t].pid)),
        now[plan.tracks[t].program as int],
    ) by {
        let _ = f.programs[plan.tracks[t].program as int];
    }
}

/// No pacing, every clock on time, and everything where it belongs.
pub open spec fn is_punctual(m: MuxView) -> bool {
    &&& is_sound(m)
    &&& homed(m.plan)
    &&& m.flow.pacer is None
    &&& on_time(m.flow.out, m.flow.programs, m.plan)
}

/// A call does not pace the output, and brings no timestamp that goes back behind
/// the clock of its stream.
pub open spec fn is_in_time(m: MuxView, c: Call) -> bool {
    match c {
        Call::Rate(rate) => rate is None,
        Call::Frame(pkt) => match track_for_index(m.plan, pkt.stream_index, 0) {
            Some(t) => keeps_time(m.flow, m.plan, t, pkt),
            None => true,
        },
        _ => true,
    }
}

/// A new multiplexer has its clocks on time.
pub proof fn lemma_fresh_punctual(plan: PlanView)
    requires
        homed(plan),
    ensures
        is_punctual(MuxView::fresh(plan)),
{
    assert(plan.wf()) by {
        reveal(laid_out);
    }
    lemma_fresh_sound(plan);
    let f = MuxView::fresh(plan).flow;
    lemma_nothing_on_time(f.out, f.programs, plan);
}

/// A frame that keeps time keeps the clocks on time, and so does any other call:
/// tables, splicing points, breaks of the time base, which are signalled, and the
/// end of the stream.
pub proof fn lemma_call_punctual(m: MuxView, c: Call)
    requires
        is_punctual(m),
        is_in_time(m, c),
    ensures
        is_punctual(called(m, c).mux),
{
    let n = m.plan.tables.len() as int;
    assert(m.flow.programs.len() == m.plan.programs.len()) by {
        reveal(sound);
        reveal(orderly);
    }
    lemma_tables_on_time(m.flow, m.plan, n);
    lemma_tables_written_sound(m);
    match c {
        Call::Rate(_) => {
            lemma_settings_sound(m, 0);
        },
        Call::Interval(_) => {},
        Call::Header => {
            assert(called(m, c).mux.flow == m.tables_written().flow);
        },
        Call::Frame(pkt) => {
            lemma_packet_written_sound(m, pkt);
            match track_for_index(m.plan, pkt.stream_index, 0) {
                Some(t) if m.header_written => {
                    lemma_track_in_range(m.plan, pkt.stream_index, 0);
                    let a = match pkt.pts {
                        Some(x) => m.tables_repeated(x),
                        None => m,
                    };
                    assert(a.flow.programs == m.flow.programs) by {
                        lemma_tables_programs(m.flow, m.plan, n);
                    }
                    assert(!a.flow.anchored());
                    lemma_sent_on_time(a.flow, m.plan, t, pkt);
                    assert(a.flow.delivered(m.plan, t, pkt) == a.flow.sent(
                        m.plan,
                        t,
                        pkt,
                        false,
                    ));
                },
                _ => {},
            }
        },
        Call::Splice(index, spec) => {
            lemma_signals_sound(m, index, spec, 0);
        },
        Call::Break(number) => {
            let none = SpliceSpec { seamless: None, post_splice_packets: 0 };
            lemma_signals_sound(m, 0, none, number);
            if program_for(m.plan, number, 0) is Some {
                lemma_program_in_range(m.plan, number, 0);
                let p = program_for(m.plan, number, 0)->0;
                lemma_break_on_time(m.flow, m.plan, p);
            }
        },
        Call::Trailer => {
            lemma_trailer_written_sound(m);
        },
        Call::Take => {},
    }
}

} // verus!
