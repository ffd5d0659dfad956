//! Between frames and sections, everything said so far agrees.
use vstd::prelude::*;

use crate::muxer::counting::owned;
use crate::muxer::flow::{FlowView, PacketView, PlanView, Slot, TrackFlow, SYS_TB_RX};
use crate::muxer::found::{
    announced, lemma_frame_untold, lemma_nothing_told, lemma_null_untold, lemma_table_true,
    lemma_untold, tells_true, told,
};
use crate::muxer::frame::Riders;
use crate::muxer::frame_read_back::{
    frame_units, gains, lemma_frame_parses, lemma_frame_put_read_back, reads_as_units,
};
use crate::muxer::packets::{null_packet, pcr_packet, psi_packet, psi_take};
use crate::muxer::pes::{frame_error, frame_packets};
use crate::muxer::plan_laws::laid_out;
use crate::muxer::read_back::{
    lemma_bsys_paced_pads, lemma_null_elsewhere, lemma_packets_on_put, lemma_pcr_packet_read_back,
    lemma_psi_packet_read_back, lemma_tb_paced_pads, packets_on,
};
use crate::muxer::section_read_back::{lemma_section_step, section_ready};
use crate::muxer::steady::{lemma_frame_steady, steady};
use crate::muxer::stream_read_back::{counts, lemma_section_elsewhere};
use crate::muxer::tidy::{
    all_mute, is_tidy, lemma_agrees_more, lemma_frame_tidy, lemma_marked_more, lemma_mute_more,
    lemma_nothing_tidy, lemma_quiet_agrees, run_of,
};
use crate::packet::parse::parse_packet_spec;
use crate::pes::reassemble::Reassembly;
use crate::stream_type::is_audio_byte;

verus! {

/// A clock that is on the PID of a stream goes with that stream, in its own
/// program, and audio is no video.
#[verifier::opaque]
pub open spec fn at_home(plan: PlanView) -> bool {
    &&& forall|t: int, p: int|
        0 <= t < plan.tracks.len() && 0 <= p < plan.programs.len() && (
        #[trigger] plan.programs[p]).pcr_pid == (#[trigger] plan.tracks[t]).pid
            ==> plan.tracks[t].program == p && plan.programs[p].pcr_track is Some
    &&& forall|t: int|
        0 <= t < plan.tracks.len() && is_audio_byte((#[trigger] plan.tracks[t]).stream_type)
            ==> !plan.tracks[t].is_video
}

/// The layout says what it is, and everything is where it belongs.
pub open spec fn homed(plan: PlanView) -> bool {
    owned(plan) && announced(plan) && at_home(plan)
}

/// The clock of its program is on stream `t`.
pub open spec fn is_clocked(plan: PlanView, t: int) -> bool {
    plan.tracks[t].pid == plan.programs[plan.tracks[t].program as int].pcr_pid
}

/// A splicing point that is asked for has a type that the stream may have.
pub open spec fn asks_right(tf: TrackFlow, is_video: bool) -> bool {
    !is_video ==> (tf.splice matches Some(s) ==> (s.seamless matches Some(x) ==> x.splice_type
        == 0))
}

/// Stream `t` has said nothing that does not agree.
pub open spec fn stream_settled(
    out: Seq<u8>,
    tracks: Seq<TrackFlow>,
    plan: PlanView,
    t: int,
) -> bool {
    &&& is_tidy(
        packets_on(out, plan.tracks[t].pid),
        tracks[t].after_splice,
        is_clocked(plan, t),
        !plan.tracks[t].is_video,
    )
    &&& asks_right(tracks[t], plan.tracks[t].is_video)
}

/// What `out` says agrees, of the programs and of every stream, and the tables say
/// nothing of splicing, access points or clocks.
#[verifier::opaque]
pub open spec fn settled(out: Seq<u8>, tracks: Seq<TrackFlow>, plan: PlanView) -> bool {
    &&& tells_true(told(out), plan)
    &&& forall|t: int|
        0 <= t < plan.tracks.len() ==> #[trigger] stream_settled(out, tracks, plan, t)
    &&& forall|k: int|
        0 <= k < plan.tables.len() ==> all_mute(packets_on(out, (#[trigger] plan.tables[k]).pid))
}

/// Padding says nothing.
pub proof fn lemma_null_settled(out: Seq<u8>, tracks: Seq<TrackFlow>, plan: PlanView)
    requires
        homed(plan),
        settled(out, tracks, plan),
    ensures
        settled(out + null_packet(), tracks, plan),
{
    reveal(settled);
    lemma_null_untold(out, plan);
    assert forall|t: int| 0 <= t < plan.tracks.len() implies #[trigger] stream_settled(
        out + null_packet(),
        tracks,
        plan,
        t,
    ) by {
        assert(stream_settled(out, tracks, plan, t));
        assert(plan.tracks[t].pid < 0x1FFF) by {
            reveal(laid_out);
        }
        lemma_null_elsewhere(out, plan.tracks[t].pid);
    }
    assert forall|k: int| 0 <= k < plan.tables.len() implies all_mute(
        packets_on(out + null_packet(), (#[trigger] plan.tables[k]).pid),
    ) by {
        assert(plan.tables[k].pid < 0x1FFF) by {
            reveal(laid_out);
        }
        lemma_null_elsewhere(out, plan.tables[k].pid);
    }
}

/// A standalone clock reference says nothing of splicing.
pub proof fn lemma_pcr_settled(
    f: FlowView,
    plan: PlanView,
    pid: u16,
    cc: u8,
    d: bool,
    base: u64,
    ext: u16,
)
    requires
        homed(plan),
        settled(f.out, f.tracks, plan),
        pid < 0x2000,
        forall|k: int| 0 <= k < plan.tables.len() ==> (#[trigger] plan.tables[k]).pid != pid,
        cc < 16,
        base <= 0x1_FFFF_FFFF,
        ext <= 0x1FF,
    ensures
        settled(f.out + pcr_packet(pid, cc, d, base, ext), f.tracks, plan),
{
    reveal(settled);
    let packet = pcr_packet(pid, cc, d, base, ext);
    lemma_pcr_packet_read_back(pid, cc, d, base, ext);
    let v = parse_packet_spec(packet)->Ok_0;
    lemma_untold(f.out, packet, plan);
    assert forall|t: int| 0 <= t < plan.tracks.len() implies #[trigger] stream_settled(
        f.out + packet,
        f.tracks,
        plan,
        t,
    ) by {
        assert(stream_settled(f.out, f.tracks, plan, t));
        let q = plan.tracks[t].pid;
        lemma_packets_on_put(f.out, packet, q);
        if q == pid {
            let ps = packets_on(f.out, q);
            lemma_quiet_agrees(run_of(ps), v, f.tracks[t].after_splice);
            lemma_agrees_more(ps, v);
            lemma_marked_more(ps, v, is_clocked(plan, t), !plan.tracks[t].is_video);
        }
    }
    assert forall|k: int| 0 <= k < plan.tables.len() implies all_mute(
        packets_on(f.out + packet, (#[trigger] plan.tables[k]).pid),
    ) by {
        let q = plan.tables[k].pid;
        lemma_packets_on_put(f.out, packet, q);
    }
}

/// A section says nothing of splicing, access points or clocks.
proof fn lemma_section_mute(
    f: FlowView,
    pid: u16,
    slot: Slot,
    key: u16,
    rest: Seq<u8>,
    start: bool,
)
    requires
        pid < 0x1FFF,
        counts(f, slot),
        all_mute(packets_on(f.out, pid)),
    ensures
        all_mute(packets_on(f.section_put(pid, slot, key, rest, start).out, pid)),
    decreases rest.len() + (if start { 1int } else { 0 }),
{
    if start || rest.len() > 0 {
        let a = f.tb_paced(key, SYS_TB_RX as int);
        let b = section_ready(f, key);
        let n = psi_take(start, rest.len() as int);
        lemma_tb_paced_pads(f, key, SYS_TB_RX as int, pid);
        lemma_bsys_paced_pads(a, pid);
        let _ = lemma_section_step(f, pid, slot, key, rest, start);
        let packet = psi_packet(pid, b.counter(slot), start, rest);
        lemma_psi_packet_read_back(pid, b.counter(slot), start, rest);
        lemma_packets_on_put(b.out, packet, pid);
        lemma_mute_more(packets_on(b.out, pid), parse_packet_spec(packet)->Ok_0);
        let c = b.put(packet).count_table(slot);
        assert(c.out == b.out + packet);
        lemma_section_mute(c, pid, slot, key, rest.skip(n), false);
    }
}

/// A table says what the layout is.
pub proof fn lemma_table_settled(f: FlowView, plan: PlanView, k: int, key: u16)
    requires
        homed(plan),
        settled(f.out, f.tracks, plan),
        0 <= k < plan.tables.len(),
        counts(f, plan.tables[k].slot),
    ensures
        ({
            let t = plan.tables[k];
            let g = f.section_put(t.pid, t.slot, key, t.section, true);
            settled(g.out, g.tracks, plan)
        }),
{
    reveal(settled);
    let x = plan.tables[k];
    let g = f.section_put(x.pid, x.slot, key, x.section, true);
    assert(x.pid < 0x1FFF) by {
        reveal(laid_out);
    }
    lemma_table_true(f, plan, k, key);
    assert forall|t: int| 0 <= t < plan.tracks.len() implies #[trigger] stream_settled(
        g.out,
        g.tracks,
        plan,
        t,
    ) by {
        assert(stream_settled(f.out, f.tracks, plan, t));
        assert(plan.tracks[t].pid < 0x1FFF && plan.tables[k].pid != plan.tracks[t].pid) by {
            reveal(laid_out);
        }
        lemma_section_elsewhere(f, x.pid, x.slot, key, x.section, true, plan.tracks[t].pid);
    }
    assert forall|i: int| 0 <= i < plan.tables.len() implies all_mute(
        packets_on(g.out, (#[trigger] plan.tables[i]).pid),
    ) by {
        let q = plan.tables[i].pid;
        assert(q < 0x1FFF) by {
            reveal(laid_out);
        }
        if q == x.pid {
            lemma_section_mute(f, x.pid, x.slot, key, x.section, true);
        } else {
            lemma_section_elsewhere(f, x.pid, x.slot, key, x.section, true, q);
        }
    }
}

/// Streams that ask and count the same are settled the same.
pub proof fn lemma_same_settled(
    out: Seq<u8>,
    a: Seq<TrackFlow>,
    b: Seq<TrackFlow>,
    plan: PlanView,
)
    requires
        settled(out, a, plan),
        forall|t: int|
            0 <= t < plan.tracks.len() ==> (#[trigger] b[t]).after_splice == a[t].after_splice
                && asks_right(b[t], plan.tracks[t].is_video),
    ensures
        settled(out, b, plan),
{
    reveal(settled);
    assert forall|t: int| 0 <= t < plan.tracks.len() implies #[trigger] stream_settled(
        out,
        b,
        plan,
        t,
    ) by {
        assert(stream_settled(out, a, plan, t));
        assert(b[t].after_splice == a[t].after_splice);
    }
}

/// Every stream asks for what it may have.
pub proof fn lemma_asks_right(out: Seq<u8>, tracks: Seq<TrackFlow>, plan: PlanView, t: int)
    requires
        settled(out, tracks, plan),
        0 <= t < plan.tracks.len(),
    ensures
        asks_right(tracks[t], plan.tracks[t].is_video),
{
    reveal(settled);
    assert(stream_settled(out, tracks, plan, t));
}

/// An output with nothing in it is settled.
pub proof fn lemma_nothing_settled(out: Seq<u8>, tracks: Seq<TrackFlow>, plan: PlanView)
    requires
        out.len() == 0,
        forall|t: int|
            0 <= t < plan.tracks.len() ==> asks_right(
                #[trigger] tracks[t],
                plan.tracks[t].is_video,
            ),
    ensures
        settled(out, tracks, plan),
{
    reveal(settled);
    lemma_nothing_told(out, plan);
    assert forall|t: int| 0 <= t < plan.tracks.len() implies #[trigger] stream_settled(
        out,
        tracks,
        plan,
        t,
    ) by {
        assert(asks_right(tracks[t], plan.tracks[t].is_video));
        reveal(packets_on);
        assert(packets_on(out, plan.tracks[t].pid) =~= Seq::empty());
        lemma_nothing_tidy(
            tracks[t].after_splice,
            is_clocked(plan, t),
            !plan.tracks[t].is_video,
        );
    }
    assert forall|k: int| 0 <= k < plan.tables.len() implies all_mute(
        packets_on(out, (#[trigger] plan.tables[k]).pid),
    ) by {
        reveal(packets_on);
        reveal(all_mute);
    }
}

/// A frame leaves everything settled.
pub proof fn lemma_frame_settled(
    f: FlowView,
    plan: PlanView,
    t: int,
    pkt: PacketView,
    riders: Riders,
)
    requires
        homed(plan),
        plan.wf(),
        settled(f.out, f.tracks, plan),
        0 <= t < plan.tracks.len(),
        f.tracks.len() == plan.tracks.len(),
        f.tracks[t].wf(),
        riders.wf(),
        frame_error(plan.tracks[t].stream_id, pkt.pts, pkt.dts, pkt.data.len() as int) is None,
        is_clocked(plan, t) && riders.random_access ==> riders.pcr is Some,
        !plan.tracks[t].is_video ==> (riders.seamless() matches Some((x, _)) ==> x == 0),
    ensures
        ({
            let packets = frame_packets(plan.tracks[t].stream_id, pkt.pts, pkt.dts, pkt.data);
            let g = f.frame_put(plan, t, riders, packets, packets.len() as int);
            settled(g.out, g.tracks, plan)
        }),
{
    let id = plan.tracks[t].stream_id;
    let pid = plan.tracks[t].pid;
    let packets = frame_packets(id, pkt.pts, pkt.dts, pkt.data);
    let n = packets.len() as int;
    let g = f.frame_put(plan, t, riders, packets, n);
    let units = frame_units(id, pkt.pts, pkt.dts, pkt.data, riders.random_access);
    assert(pid < 0x1FFF) by {
        reveal(laid_out);
    }
    assert(tells_true(told(f.out), plan)) by {
        reveal(settled);
    }
    lemma_frame_parses(id, pkt.pts, pkt.dts, pkt.data, riders.random_access);
    assert(forall|i: int| 0 <= i < packets.len() ==> (#[trigger] packets[i]).len() > 0) by {
        reveal(reads_as_units);
    }
    lemma_frame_untold(f, plan, t, riders, packets, n);
    let _ = lemma_frame_put_read_back(
        f,
        plan,
        t,
        riders,
        packets,
        units,
        n,
        Reassembly::empty(),
    );
    lemma_frame_steady(f, plan, t, riders, packets, n);
    assert(stream_settled(f.out, f.tracks, plan, t)) by {
        reveal(settled);
    }
    lemma_frame_tidy(
        f,
        plan,
        t,
        riders,
        packets,
        n,
        is_clocked(plan, t),
        !plan.tracks[t].is_video,
    );
    assert forall|j: int| 0 <= j < plan.tracks.len() implies #[trigger] stream_settled(
        g.out,
        g.tracks,
        plan,
        j,
    ) by {
        if j != t {
            assert(stream_settled(f.out, f.tracks, plan, j)) by {
                reveal(settled);
            }
            assert(plan.tracks[j].pid != pid && plan.tracks[j].pid < 0x1FFF) by {
                reveal(laid_out);
            }
            assert(packets_on(g.out, plan.tracks[j].pid) == packets_on(
                f.out,
                plan.tracks[j].pid,
            )) by {
                reveal(gains);
            }
            assert(g.tracks[j] == f.tracks[j]) by {
                reveal(steady);
            }
        }
    }
    assert forall|k: int| 0 <= k < plan.tables.len() implies all_mute(
        packets_on(g.out, (#[trigger] plan.tables[k]).pid),
    ) by {
        let q = plan.tables[k].pid;
        assert(q != pid && q < 0x1FFF) by {
            reveal(laid_out);
            assert(plan.tables[k].pid != plan.tracks[t].pid);
        }
        assert(packets_on(g.out, q) == packets_on(f.out, q)) by {
            reveal(gains);
        }
        reveal(settled);
    }
    reveal(settled);
}

} // verus!
