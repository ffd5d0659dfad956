//! Whatever is written, the output is a whole number of packets that keep the
//! rules on single packets and count on.
use vstd::prelude::*;

use crate::clock::PCR_MODULUS_27MHZ;
use crate::muxer::clean::{
    is_clean, lemma_null_clean, lemma_pcr_clean, lemma_pes_clean, lemma_psi_clean,
};
use crate::muxer::counting::{
    all_count, lemma_nothing_counts, lemma_null_counts, lemma_pcr_counts, lemma_pes_counts,
    lemma_psi_counts, lemma_same_counters, owned,
};
use crate::muxer::deliver::{
    decode_time, first_due, held_due, lead_of, lemma_first_due, riders_for, ticks_27,
};
use crate::muxer::emit::{guarded, PCR_MAX_INTERVAL_90K, PCR_STEP_90K};
use crate::muxer::flow::{
    lemma_null_drains_bsys, lemma_null_drains_tb, FlowView, PacketView, PlanView, AUDIO_TB_RX,
    BSYS_PACKET_SCALED, BSYS_SIZE_SCALED, SYS_TB_KEY, SYS_TB_RX, TB_SIZE, TICKS_PER_BYTE_RATE,
};
use crate::muxer::frame::Riders;
use crate::muxer::config::SpliceSpec;
use crate::muxer::mux::{fresh_pacer, program_for, track_for_index, MuxView};
use crate::muxer::packets::{
    lemma_pes_packet_len, null_packet, pcr_packet, pes_packet, pes_take, psi_packet, psi_take,
    ts_header,
};
use crate::muxer::pes::{frame_error, frame_packets, lemma_ring_bound, ring};
use crate::muxer::plan_laws::laid_out;
use crate::muxer::read_back::{
    lemma_null_read_back, lemma_packet_field_fits, lemma_pcr_now_fits, lemma_pcr_packet_read_back,
    lemma_pes_packet_read_back, lemma_psi_packet_read_back,
};
use crate::muxer::settling::{
    asks_right, homed, lemma_asks_right, lemma_frame_settled, lemma_nothing_settled,
    lemma_null_settled, lemma_pcr_settled, lemma_same_settled, lemma_table_settled, settled,
};
use crate::muxer::stream_read_back::counts;
use crate::packet::parse::parse_packet_spec;

verus! {

/// `out` is a whole number of packets that parse and keep the rules on single
/// packets.
#[verifier::opaque]
pub open spec fn is_stream(out: Seq<u8>) -> bool
    decreases out.len(),
{
    out.len() == 0 || (out.len() >= 188 && is_clean(out.skip(out.len() - 188))
        && is_stream(out.take(out.len() - 188)))
}

/// The clock reference, if there is one, of a packet at byte position `pos` is the
/// time of its PCR field there, at `rate` since `anchor`.
pub open spec fn tells_time(packet: Seq<u8>, pos: int, rate: int, anchor: (int, int)) -> bool {
    let t = (anchor.1 + (pos + 10 - anchor.0) * TICKS_PER_BYTE_RATE / rate)
        % PCR_MODULUS_27MHZ as int;
    parse_packet_spec(packet) matches Ok(p) ==> (p.adaptation_field matches Some(af) ==> (
    af.pcr_base matches Some(base) ==> base == t / 300 && af.pcr_extension == Some(
        (t % 300) as u16,
    )))
}

/// In `out`, which starts at byte position `at`, every clock reference since the
/// byte clock started keeps to it.
#[verifier::opaque]
pub open spec fn by_clock(out: Seq<u8>, at: int, rate: int, anchor: (int, int)) -> bool
    decreases out.len(),
{
    out.len() < 188 || {
        let n = out.len() - 188;
        &&& by_clock(out.take(n), at, rate, anchor)
        &&& at + n >= anchor.0 ==> tells_time(out.skip(n), at + n, rate, anchor)
    }
}

/// The output is a stream of packets, every counter has its four bits and, where
/// every PID has one owner, counts the packets there; every stream has its queue;
/// and clock references keep to the byte clock where it runs.
#[verifier::opaque]
pub open spec fn orderly(f: FlowView, plan: PlanView) -> bool {
    &&& is_stream(f.out)
    &&& f.tracks.len() == plan.tracks.len()
    &&& f.programs.len() == plan.programs.len()
    &&& f.pmt_cc.len() == plan.programs.len()
    &&& forall|i: int| 0 <= i < f.tracks.len() ==> (#[trigger] f.tracks[i]).wf()
    &&& forall|i: int| 0 <= i < f.pmt_cc.len() ==> #[trigger] f.pmt_cc[i] < 16
    &&& f.table_cc.pat < 16 && f.table_cc.sdt < 16 && f.table_cc.nit < 16 && f.table_cc.eit < 16
    &&& f.pacer is Some ==> f.pacer->0.held.len() == plan.tracks.len()
    &&& owned(plan) ==> all_count(f.out, f.tracks, f.table_cc, f.pmt_cc, plan)
    &&& f.anchored() ==> by_clock(f.out, f.drained, f.pacer->0.rate, f.pacer->0.anchor->0)
}

/// The output is orderly and, where everything is where it belongs, what it says
/// agrees. This holds between frames and sections.
#[verifier::opaque]
pub open spec fn sound(f: FlowView, plan: PlanView) -> bool {
    &&& orderly(f, plan)
    &&& homed(plan) ==> settled(f.out, f.tracks, plan)
}

/// A stream is a multiple of 188 bytes long.
pub proof fn lemma_stream_len(out: Seq<u8>)
    requires
        is_stream(out),
    ensures
        out.len() % 188 == 0,
    decreases out.len(),
{
    reveal(is_stream);
    if out.len() > 0 {
        lemma_stream_len(out.take(out.len() - 188));
    }
}

proof fn lemma_stream_put(out: Seq<u8>, packet: Seq<u8>)
    requires
        is_stream(out),
        packet.len() == 188,
        is_clean(packet),
    ensures
        is_stream(out + packet),
{
    reveal_with_fuel(is_stream, 2);
    let all = out + packet;
    assert(all.take(all.len() - 188) =~= out);
    assert(all.skip(all.len() - 188) =~= packet);
}

/// What was written before the byte clock started does not keep to it.
proof fn lemma_before_clock(out: Seq<u8>, at: int, rate: int, anchor: (int, int))
    requires
        anchor.0 >= at + out.len(),
    ensures
        by_clock(out, at, rate, anchor),
    decreases out.len(),
{
    reveal(by_clock);
    if out.len() >= 188 {
        lemma_before_clock(out.take(out.len() - 188), at, rate, anchor);
    }
}

/// A packet that tells the time of its place.
proof fn lemma_timed_put(f: FlowView, packet: Seq<u8>)
    requires
        f.anchored(),
        packet.len() == 188,
        by_clock(f.out, f.drained, f.pacer->0.rate, f.pacer->0.anchor->0),
        tells_time(packet, f.pos(), f.pacer->0.rate, f.pacer->0.anchor->0),
    ensures
        by_clock(f.out + packet, f.drained, f.pacer->0.rate, f.pacer->0.anchor->0),
{
    reveal_with_fuel(by_clock, 2);
    let all = f.out + packet;
    assert(all.take(all.len() - 188) =~= f.out);
    assert(all.skip(all.len() - 188) =~= packet);
}

/// A packet without a clock reference.
proof fn lemma_untimed_put(f: FlowView, packet: Seq<u8>)
    requires
        packet.len() == 188,
        parse_packet_spec(packet) matches Ok(p) ==> p.adaptation_field is None,
    ensures
        f.anchored() && by_clock(f.out, f.drained, f.pacer->0.rate, f.pacer->0.anchor->0)
            ==> by_clock(f.out + packet, f.drained, f.pacer->0.rate, f.pacer->0.anchor->0),
{
    if f.anchored() && by_clock(f.out, f.drained, f.pacer->0.rate, f.pacer->0.anchor->0) {
        lemma_timed_put(f, packet);
    }
}

/// A PID is written with its low 13 bits.
proof fn lemma_pid_masked(pid: u16, start: bool, afc: u8, cc: u8)
    ensures
        (pid & 0x1FFF) < 0x2000,
        ts_header(pid, start, afc, cc) == ts_header(pid & 0x1FFF, start, afc, cc),
{
    assert((pid & 0x1FFF) < 0x2000 && ((pid >> 8) & 0x1F) == (((pid & 0x1FFF) >> 8) & 0x1F) && (pid
        & 0xFF) == ((pid & 0x1FFF) & 0xFF)) by (bit_vector);
}

/// `g` differs from `f` in output and pacing only, and its output is a stream
/// that counts on if that of `f` is.
pub open spec fn only_writes(f: FlowView, g: FlowView, plan: PlanView) -> bool {
    &&& g.tracks == f.tracks
    &&& g.programs == f.programs
    &&& g.table_cc == f.table_cc
    &&& g.pmt_cc == f.pmt_cc
    &&& g.pacer is Some == f.pacer is Some
    &&& g.pacer is Some ==> g.pacer->0.held == f.pacer->0.held && g.pacer->0.rate
        == f.pacer->0.rate && g.pacer->0.anchor == f.pacer->0.anchor
    &&& g.drained == f.drained
    &&& is_stream(f.out) && f.anchored() && by_clock(
        f.out,
        f.drained,
        f.pacer->0.rate,
        f.pacer->0.anchor->0,
    ) ==> by_clock(g.out, f.drained, f.pacer->0.rate, f.pacer->0.anchor->0)
    &&& is_stream(f.out) ==> is_stream(g.out)
    &&& owned(plan) && all_count(f.out, f.tracks, f.table_cc, f.pmt_cc, plan) ==> all_count(
        g.out,
        f.tracks,
        f.table_cc,
        f.pmt_cc,
        plan,
    )
}

proof fn lemma_tb_paced(f: FlowView, plan: PlanView, key: u16, rx: int)
    ensures
        only_writes(f, f.tb_paced(key, rx), plan),
    decreases f.pacer->0.tb_level(key, rx, f.pos()),
{
    if f.pacer is Some && rx > 0 {
        let p = f.pacer->0;
        let level = p.tb_level(key, rx, f.pos());
        if !(level + 188 * p.rate <= TB_SIZE * p.rate || level <= 0) {
            lemma_null_drains_tb(f, key, rx);
            let g = f.with_tb(key, level).put(null_packet());
            lemma_null_read_back();
            lemma_null_clean();
            if is_stream(f.out) {
                lemma_stream_put(f.out, null_packet());
            }
            lemma_untimed_put(f, null_packet());
            if owned(plan) && all_count(f.out, f.tracks, f.table_cc, f.pmt_cc, plan) {
                lemma_null_counts(f.out, f.tracks, f.table_cc, f.pmt_cc, plan);
            }
            lemma_tb_paced(g, plan, key, rx);
        }
    }
}

proof fn lemma_bsys_paced(f: FlowView, plan: PlanView)
    ensures
        only_writes(f, f.bsys_paced(), plan),
    decreases f.pacer->0.bsys_level(f.pos()),
{
    if f.pacer is Some {
        let p = f.pacer->0;
        let level = p.bsys_level(f.pos());
        if !(level + BSYS_PACKET_SCALED * p.rate <= BSYS_SIZE_SCALED * p.rate || level <= 0) {
            lemma_null_drains_bsys(f);
            let g = f.with_bsys(level).put(null_packet());
            lemma_null_read_back();
            lemma_null_clean();
            if is_stream(f.out) {
                lemma_stream_put(f.out, null_packet());
            }
            lemma_untimed_put(f, null_packet());
            if owned(plan) && all_count(f.out, f.tracks, f.table_cc, f.pmt_cc, plan) {
                lemma_null_counts(f.out, f.tracks, f.table_cc, f.pmt_cc, plan);
            }
            lemma_bsys_paced(g, plan);
        }
    }
}

pub(crate) proof fn lemma_null_put(f: FlowView, plan: PlanView)
    requires
        sound(f, plan),
    ensures
        sound(f.put(null_packet()), plan),
{
    reveal(sound);
    reveal(orderly);
    lemma_null_read_back();
    lemma_null_clean();
    lemma_stream_put(f.out, null_packet());
    lemma_untimed_put(f, null_packet());
    if owned(plan) {
        lemma_null_counts(f.out, f.tracks, f.table_cc, f.pmt_cc, plan);
    }
    if homed(plan) {
        lemma_null_settled(f.out, f.tracks, plan);
    }
}

/// A section keeps the output sound.
proof fn lemma_section_sound(
    f: FlowView,
    plan: PlanView,
    k: int,
    key: u16,
    rest: Seq<u8>,
    start: bool,
)
    requires
        plan.wf(),
        orderly(f, plan),
        0 <= k < plan.tables.len(),
    ensures
        orderly(f.section_put(plan.tables[k].pid, plan.tables[k].slot, key, rest, start), plan),
    decreases rest.len() + (if start { 1int } else { 0 }),
{
    if start || rest.len() > 0 {
        let pid = plan.tables[k].pid;
        let slot = plan.tables[k].slot;
        let a = f.tb_paced(key, SYS_TB_RX as int);
        let b = if key == SYS_TB_KEY { a.bsys_paced() } else { a };
        lemma_tb_paced(f, plan, key, SYS_TB_RX as int);
        lemma_bsys_paced(a, plan);
        let cc = b.counter(slot);
        let packet = psi_packet(pid, cc, start, rest);
        let c = b.put(packet).count_table(slot);
        assert(orderly(c, plan)) by {
            reveal(orderly);
            assert(plan.has_slot(slot));
            assert(cc < 16);
            if owned(plan) {
                lemma_psi_counts(b, plan, k, start, rest);
            }
            lemma_pid_masked(pid, start, 1, cc);
            lemma_psi_packet_read_back(pid & 0x1FFF, cc, start, rest);
            lemma_psi_clean(pid & 0x1FFF, cc, start, rest);
            lemma_stream_put(b.out, packet);
            lemma_untimed_put(b, packet);
        }
        let n = psi_take(start, rest.len() as int);
        lemma_section_sound(c, plan, k, key, rest.skip(n), false);
    }
}

/// The tables keep the output sound.
pub(crate) proof fn lemma_tables_sound(f: FlowView, plan: PlanView, n: int)
    requires
        plan.wf(),
        sound(f, plan),
        n <= plan.tables.len(),
    ensures
        sound(f.tables_put(plan, n), plan),
    decreases n,
{
    if n > 0 {
        lemma_tables_sound(f, plan, n - 1);
        let t = plan.tables[n - 1];
        let a = f.tables_put(plan, n - 1);
        let key = crate::muxer::emit::tb_key(plan, t.pid);
        assert(orderly(a, plan)) by {
            reveal(sound);
        }
        lemma_section_sound(a, plan, n - 1, key, t.section, true);
        if homed(plan) {
            assert(settled(a.out, a.tracks, plan)) by {
                reveal(sound);
            }
            assert(counts(a, t.slot)) by {
                reveal(orderly);
                assert(plan.has_slot(t.slot));
            }
            lemma_table_settled(a, plan, n - 1, key);
        }
        reveal(sound);
    }
}

proof fn lemma_pcr_sound(f: FlowView, plan: PlanView, p: int, base: u64, ext: u16)
    requires
        plan.wf(),
        sound(f, plan),
        0 <= p < plan.programs.len(),
        base <= 0x1_FFFF_FFFF,
        ext <= 0x1FF,
        f.anchored() ==> (base, ext) == f.pcr_now(),
    ensures
        sound(f.pcr_put(plan, p, base, ext), plan),
{
    reveal(sound);
    reveal(orderly);
    match plan.programs[p].pcr_track {
        None => {},
        Some(t) => {
            let cc = ((f.tracks[t as int].cc + 15) % 16) as u8;
            let d = f.programs[p].discontinuity;
            let pid = plan.programs[p].pcr_pid;
            lemma_pid_masked(pid, false, 2, cc);
            lemma_pcr_packet_read_back(pid & 0x1FFF, cc, d, base, ext);
            lemma_pcr_clean(pid & 0x1FFF, cc, d, base, ext);
            lemma_stream_put(f.out, pcr_packet(pid, cc, d, base, ext));
            if f.anchored() {
                lemma_timed_put(f, pcr_packet(pid, cc, d, base, ext));
            }
            if owned(plan) {
                lemma_pcr_counts(f, plan, p, d, base, ext);
            }
            if homed(plan) {
                assert(pid < 0x2000 && forall|k: int|
                    0 <= k < plan.tables.len() ==> (#[trigger] plan.tables[k]).pid != pid) by {
                    reveal(laid_out);
                    assert(plan.tracks[t as int].pid == plan.programs[p].pcr_pid);
                }
                lemma_pcr_settled(f, plan, pid, cc, d, base, ext);
            }
        },
    }
}

proof fn lemma_last_pcr_sound(f: FlowView, plan: PlanView, p: int, base: i64)
    requires
        sound(f, plan),
        0 <= p < plan.programs.len(),
    ensures
        sound(f.with_last_pcr(p, base), plan),
{
    reveal(sound);
    reveal(orderly);
}

proof fn lemma_chain_sound(f: FlowView, plan: PlanView, p: int, target: int)
    requires
        plan.wf(),
        sound(f, plan),
        0 <= p < plan.programs.len(),
        !f.anchored(),
    ensures
        sound(f.chain_put(plan, p, target), plan),
    decreases
            (if f.programs[p].last_pcr is Some {
                target - f.programs[p].last_pcr->0
            } else {
                0
            }),
{
    match f.programs[p].last_pcr {
        None => {},
        Some(last) => if target - last <= PCR_MAX_INTERVAL_90K || !(0 <= p < f.programs.len())
            || target > i64::MAX {
        } else {
            let next = (last + PCR_STEP_90K) as i64;
            let x: i64 = if next > 0 { next } else { 0 };
            lemma_ring_bound(x);
            lemma_pcr_sound(f, plan, p, ring(x), 0);
            let h = f.pcr_put(plan, p, ring(x), 0);
            lemma_last_pcr_sound(h, plan, p, next);
            let g = h.with_last_pcr(p, next);
            assert(g.programs[p].last_pcr == Some(next));
            lemma_chain_sound(g, plan, p, target);
        },
    }
}

pub(crate) proof fn lemma_clocks_sound(f: FlowView, plan: PlanView, n: int)
    requires
        plan.wf(),
        sound(f, plan),
        n <= plan.programs.len(),
    ensures
        sound(f.clocks_put(plan, n), plan),
    decreases n,
{
    if n > 0 {
        lemma_clocks_sound(f, plan, n - 1);
        let a = f.clocks_put(plan, n - 1);
        if a.anchored() && a.pcr_due(n - 1) {
            let (base, ext) = a.pcr_now();
            lemma_pcr_now_fits(a);
            lemma_pcr_sound(a, plan, n - 1, base, ext);
            reveal(sound);
            reveal(orderly);
        }
    }
}

/// One packet of a PES packet keeps the output sound.
proof fn lemma_packet_sound(
    f: FlowView,
    plan: PlanView,
    t: int,
    riders: Riders,
    start: bool,
    run: Option<int>,
    rest: Seq<u8>,
)
    requires
        plan.wf(),
        orderly(f, plan),
        0 <= t < plan.tracks.len(),
        riders.wf(),
        rest.len() > 0,
    ensures
        orderly(f.packet_put(plan, t, riders, start, run, rest), plan),
{
    reveal(orderly);
    let left = rest.len() as int;
    let field = f.packet_field(plan, t, riders, start, run, left);
    let cc = f.tracks[t].cc;
    let pid = plan.tracks[t].pid;
    assert(f.tracks[t].wf());
    lemma_packet_field_fits(f, plan, t, riders, start, run, left);
    lemma_pes_packet_len(pid, cc, start, field, rest);
    lemma_pid_masked(pid, start, if field.is_bare() && left >= 184 { 1 } else { 3 }, cc);
    lemma_pes_clean(pid & 0x1FFF, cc, start, field, rest);
    let packet = pes_packet(pid, cc, start, field, rest);
    assert(packet == pes_packet(pid & 0x1FFF, cc, start, field, rest));
    lemma_stream_put(f.out, packet);
    lemma_pes_packet_read_back(pid & 0x1FFF, cc, start, field, rest);
    if f.anchored() {
        lemma_timed_put(f, packet);
    }
    let after = f.track_after(t, riders);
    assert(after.wf());
    if owned(plan) {
        lemma_pes_counts(f, plan, t, start, field, rest, after);
    }
}

/// The rest of a PES packet keeps the output sound.
proof fn lemma_rest_sound(
    f: FlowView,
    plan: PlanView,
    t: int,
    riders: Riders,
    start: bool,
    run: Option<int>,
    rest: Seq<u8>,
)
    requires
        plan.wf(),
        orderly(f, plan),
        0 <= t < plan.tracks.len(),
        riders.wf(),
    ensures
        orderly(f.rest_put(plan, t, riders, start, run, rest), plan),
    decreases rest.len(),
{
    if rest.len() > 0 {
        let a = f.paced_for(plan, t);
        if !plan.tracks[t].is_video {
            lemma_tb_paced(f, plan, plan.tracks[t].pid, AUDIO_TB_RX as int);
        }
        assert(orderly(a, plan)) by {
            reveal(orderly);
        }
        let left = rest.len() as int;
        let field = a.packet_field(plan, t, riders, start, run, left);
        lemma_packet_field_fits(a, plan, t, riders, start, run, left);
        lemma_pes_packet_len(0, 0, start, field, rest);
        let n = pes_take(field, left);
        lemma_packet_sound(a, plan, t, riders, start, run, rest);
        lemma_rest_sound(
            a.packet_put(plan, t, riders, start, run, rest),
            plan,
            t,
            riders,
            false,
            a.run_after(plan, t, riders, start, run, left),
            rest.skip(n),
        );
    }
}

proof fn lemma_after_splice_sound(f: FlowView, plan: PlanView, t: int, x: Option<(u8, u8)>)
    requires
        orderly(f, plan),
        0 <= t < plan.tracks.len(),
        x matches Some((next, total)) ==> 1 <= next <= total <= 127,
    ensures
        orderly(f.with_after_splice(t, x), plan),
{
    reveal(orderly);
    assert(f.tracks[t].wf());
    if owned(plan) {
        let now = f.with_after_splice(t, x).tracks;
        lemma_same_counters(f.out, f.tracks, now, f.table_cc, f.pmt_cc, plan);
    }
}

/// The PES packets of a frame keep the output sound.
proof fn lemma_frame_sound(
    f: FlowView,
    plan: PlanView,
    t: int,
    riders: Riders,
    packets: Seq<Seq<u8>>,
    n: int,
)
    requires
        plan.wf(),
        orderly(f, plan),
        0 <= t < plan.tracks.len(),
        riders.wf(),
        n <= packets.len(),
    ensures
        orderly(f.frame_put(plan, t, riders, packets, n), plan),
    decreases n,
{
    if n > 0 {
        lemma_frame_sound(f, plan, t, riders, packets, n - 1);
        let a = f.frame_put(plan, t, riders, packets, n - 1);
        let mine = riders_for(riders, n - 1, packets.len() - 1);
        let pes = packets[n - 1];
        match mine.splice {
            None => {
                lemma_rest_sound(a, plan, t, mine, true, None, pes);
            },
            Some(s) => {
                lemma_after_splice_sound(a, plan, t, None);
                let b = a.with_after_splice(t, None);
                lemma_rest_sound(b, plan, t, mine, true, None, pes);
                if s.post_splice_packets > 0 {
                    lemma_after_splice_sound(
                        b.rest_put(plan, t, mine, true, None, pes),
                        plan,
                        t,
                        Some((1u8, s.post_splice_packets)),
                    );
                }
            },
        }
    }
}

/// A frame that is sent keeps the output sound, also when it is refused.
pub(crate) proof fn lemma_sent_sound(f: FlowView, plan: PlanView, t: int, pkt: PacketView, paced: bool)
    requires
        plan.wf(),
        sound(f, plan),
        0 <= t < plan.tracks.len(),
        f.anchored() ==> paced,
    ensures
        sound(f.sent(plan, t, pkt, paced).flow, plan),
{
    reveal(FlowView::sent);
    let track = plan.tracks[t];
    let p = track.program as int;
    let own = track.pid == plan.programs[p].pcr_pid;
    let b = f.pcrs_before(plan, t, pkt.pts, paced);
    if pkt.pts is Some {
        let x = pkt.pts->0;
        lemma_ring_bound(guarded(x));
        if !f.anchored() {
            lemma_chain_sound(f, plan, p, guarded(x) as int);
            lemma_pcr_sound(f, plan, p, ring(guarded(x)), 0);
            lemma_last_pcr_sound(f.pcr_put(plan, p, ring(guarded(x)), 0), plan, p, guarded(x));
        }
    }
    assert(sound(b, plan));
    if frame_error(track.stream_id, pkt.pts, pkt.dts, pkt.data.len() as int) is None {
        let packets = frame_packets(track.stream_id, pkt.pts, pkt.dts, pkt.data);
        let inline = own && pkt.pts is Some;
        if inline {
            lemma_last_pcr_sound(b, plan, p, guarded(pkt.pts->0));
        }
        let c = if inline { b.with_last_pcr(p, guarded(pkt.pts->0)) } else { b };
        let riders = Riders {
            pcr: if inline { Some((ring(guarded(pkt.pts->0)), 0u16)) } else { None },
            random_access: pkt.keyframe && (!own || inline),
            splice: c.tracks[t].splice,
        };
        let d = c.splice_taken(t);
        assert(orderly(d, plan) && riders.wf()) by {
            reveal(sound);
            reveal(orderly);
            assert(c.tracks[t].wf());
            if owned(plan) {
                lemma_same_counters(c.out, c.tracks, d.tracks, c.table_cc, c.pmt_cc, plan);
            }
        }
        lemma_frame_sound(d, plan, t, riders, packets, packets.len() as int);
        if homed(plan) {
            assert(settled(c.out, c.tracks, plan) && c.tracks.len() == plan.tracks.len()
                && d.tracks[t].wf()) by {
                reveal(sound);
                reveal(orderly);
            }
            lemma_asks_right(c.out, c.tracks, plan, t);
            assert forall|j: int| 0 <= j < plan.tracks.len() implies (
            #[trigger] d.tracks[j]).after_splice == c.tracks[j].after_splice && asks_right(
                d.tracks[j],
                plan.tracks[j].is_video,
            ) by {
                lemma_asks_right(c.out, c.tracks, plan, j);
            }
            lemma_same_settled(c.out, c.tracks, d.tracks, plan);
            lemma_frame_settled(d, plan, t, pkt, riders);
        }
        reveal(sound);
    }
}

/// The byte clock starts after everything that was written before it.
pub(crate) proof fn lemma_clock_started_sound(f: FlowView, plan: PlanView, time: int)
    requires
        sound(f, plan),
        f.pacer is Some,
    ensures
        sound(f.clock_started(time), plan),
{
    reveal(sound);
    reveal(orderly);
    if f.pacer->0.anchor is None {
        lemma_before_clock(f.out, f.drained, f.pacer->0.rate, (f.pos(), time));
    }
}

pub(crate) proof fn lemma_idled_sound(f: FlowView, plan: PlanView, target: int, fuel: nat)
    requires
        plan.wf(),
        sound(f, plan),
    ensures
        sound(f.idled(plan, target, fuel), plan),
    decreases fuel,
{
    if fuel > 0 && f.now() < target {
        let n = plan.programs.len() as int;
        lemma_clocks_sound(f, plan, n);
        lemma_null_put(f.clocks_put(plan, n), plan);
        lemma_idled_sound(
            f.clocks_put(plan, n).put(null_packet()),
            plan,
            target,
            (fuel - 1) as nat,
        );
    }
}

pub(crate) proof fn lemma_held_sound(f: FlowView, plan: PlanView, t: int, pkt: PacketView)
    requires
        plan.wf(),
        sound(f, plan),
        0 <= t < plan.tracks.len(),
    ensures
        sound(f.delivered_held(plan, t, pkt).flow, plan),
{
    match decode_time(pkt) {
        Some(d) if f.pacer is Some => {
            let target = ticks_27(d) - lead_of(plan.tracks[t].is_video);
            let a = f.clock_started(target);
            lemma_clock_started_sound(f, plan, target);
            lemma_idled_sound(a, plan, target, a.waits(target));
            let b = a.idled(plan, target, a.waits(target));
            lemma_clocks_sound(b, plan, plan.programs.len() as int);
            lemma_sent_sound(b.clocks_put(plan, plan.programs.len() as int), plan, t, pkt, true);
        },
        _ => {
            lemma_sent_sound(f, plan, t, pkt, f.anchored());
        },
    }
}

/// Held frames, in the order in which they are due, keep the output sound.
pub(crate) proof fn lemma_flushed_sound(f: FlowView, plan: PlanView, horizon: int, fuel: nat)
    requires
        plan.wf(),
        sound(f, plan),
    ensures
        sound(f.flushed(plan, horizon, fuel).flow, plan),
    decreases fuel,
{
    let held = f.pacer->0.held;
    match first_due(held, held.len() as int) {
        Some(t) if f.pacer is Some && fuel > 0 && held_due(held[t][0]) <= horizon => {
            lemma_first_due(held, held.len() as int);
            let a = f.popped(t);
            assert(sound(a, plan) && held.len() == plan.tracks.len()) by {
                reveal(sound);
                reveal(orderly);
            }
            lemma_held_sound(a, plan, t, held[t][0]);
            let o = a.delivered_held(plan, t, held[t][0]);
            if o.error is None {
                lemma_flushed_sound(o.flow, plan, horizon, (fuel - 1) as nat);
            }
        },
        _ => {},
    }
}

/// Waiting for the clock keeps the output sound.
pub(crate) proof fn lemma_waited_sound(f: FlowView, plan: PlanView, target: int, fuel: nat)
    requires
        plan.wf(),
        sound(f, plan),
    ensures
        sound(f.waited(plan, target, fuel).flow, plan),
    decreases fuel,
{
    if fuel > 0 && f.now() < target {
        lemma_flushed_sound(
            f,
            plan,
            f.now(),
            crate::muxer::deliver::held_count(f.pacer->0.held),
        );
        let o = f.flushed_all(plan, f.now());
        if o.error is None && o.flow.now() < target {
            let n = plan.programs.len() as int;
            lemma_clocks_sound(o.flow, plan, n);
            lemma_null_put(o.flow.clocks_put(plan, n), plan);
            lemma_waited_sound(
                o.flow.clocks_put(plan, n).put(null_packet()),
                plan,
                target,
                (fuel - 1) as nat,
            );
        }
    }
}

/// Delivering a frame keeps the output sound, also when it comes too late.
pub(crate) proof fn lemma_delivered_sound(f: FlowView, plan: PlanView, t: int, pkt: PacketView)
    requires
        plan.wf(),
        sound(f, plan),
        0 <= t < plan.tracks.len(),
    ensures
        sound(f.delivered(plan, t, pkt).flow, plan),
{
    match decode_time(pkt) {
        Some(d) if f.pacer is Some => {
            let target = ticks_27(d) - lead_of(plan.tracks[t].is_video);
            let a = f.clock_started(target);
            lemma_clock_started_sound(f, plan, target);
            lemma_waited_sound(a, plan, target, a.waits(target));
            let o = a.waited(plan, target, a.waits(target));
            if o.error is None && o.flow.now() <= ticks_27(d) {
                let horizon = o.flow.now() + o.flow.wire_time(pkt.data.len() as int);
                lemma_flushed_sound(
                    o.flow,
                    plan,
                    horizon,
                    crate::muxer::deliver::held_count(o.flow.pacer->0.held),
                );
                let q = o.flow.flushed_all(plan, horizon);
                let n = plan.programs.len() as int;
                lemma_clocks_sound(q.flow, plan, n);
                lemma_sent_sound(q.flow.clocks_put(plan, n), plan, t, pkt, true);
            }
        },
        _ => {
            lemma_sent_sound(f, plan, t, pkt, f.anchored());
        },
    }
}

pub(crate) proof fn lemma_released_sound(f: FlowView, plan: PlanView, fuel: nat)
    requires
        plan.wf(),
        sound(f, plan),
    ensures
        sound(f.released(plan, fuel).flow, plan),
    decreases fuel,
{
    let held = f.pacer->0.held;
    match first_due(held, held.len() as int) {
        Some(t) if f.pacer is Some && fuel > 0 => {
            lemma_first_due(held, held.len() as int);
            let a = f.popped(t);
            assert(sound(a, plan) && held.len() == plan.tracks.len()) by {
                reveal(sound);
                reveal(orderly);
            }
            lemma_held_sound(a, plan, t, held[t][0]);
            let o = a.delivered_held(plan, t, held[t][0]);
            if o.error is None {
                lemma_released_sound(o.flow, plan, (fuel - 1) as nat);
            }
        },
        _ => {},
    }
}

/// The output of a multiplexer is, at every moment, a whole number of packets
/// that parse and keep the rules on single packets.
pub open spec fn is_sound(m: MuxView) -> bool {
    m.plan.wf() && sound(m.flow, m.plan)
}

/// A new multiplexer's output is a stream of packets.
pub proof fn lemma_fresh_sound(plan: PlanView)
    requires
        plan.wf(),
    ensures
        is_sound(MuxView::fresh(plan)),
{
    reveal(sound);
    reveal(orderly);
    reveal(is_stream);
    lemma_nothing_counts(MuxView::fresh(plan).flow, plan);
    lemma_nothing_settled(Seq::empty(), MuxView::fresh(plan).flow.tracks, plan);
}

/// Choosing a rate, and taking the output out, keep it a stream of packets.
pub proof fn lemma_settings_sound(m: MuxView, rate: u64)
    requires
        is_sound(m),
    ensures
        is_sound(
            m.with_flow(
                FlowView { pacer: Some(fresh_pacer(m.plan, rate, m.flow.pos())), ..m.flow },
            ),
        ),
        is_sound(m.with_flow(FlowView { pacer: None, ..m.flow })),
        is_sound(
            m.with_flow(FlowView { out: Seq::empty(), drained: m.flow.pos(), ..m.flow }),
        ),
{
    reveal(sound);
    reveal(orderly);
    reveal(is_stream);
    reveal(by_clock);
    let taken = FlowView { out: Seq::empty(), drained: m.flow.pos(), ..m.flow };
    lemma_nothing_counts(taken, m.plan);
    if homed(m.plan) {
        assert forall|t: int| 0 <= t < m.plan.tracks.len() implies asks_right(
            #[trigger] taken.tracks[t],
            m.plan.tracks[t].is_video,
        ) by {
            lemma_asks_right(m.flow.out, m.flow.tracks, m.plan, t);
        }
        lemma_nothing_settled(taken.out, taken.tracks, m.plan);
    }
}

/// Header and repeated tables keep the output a stream of packets.
pub proof fn lemma_tables_written_sound(m: MuxView)
    requires
        is_sound(m),
    ensures
        is_sound(m.tables_written()),
{
    lemma_tables_sound(m.flow, m.plan, m.plan.tables.len() as int);
}

/// A frame, written or refused, keeps the output a stream of packets.
pub proof fn lemma_packet_written_sound(m: MuxView, pkt: PacketView)
    requires
        is_sound(m),
    ensures
        is_sound(m.packet_written(pkt).mux),
{
    if m.header_written {
        match track_for_index(m.plan, pkt.stream_index, 0) {
            None => {},
            Some(t) => {
                lemma_track_in_range(m.plan, pkt.stream_index, 0);
                lemma_tables_written_sound(m);
                let a = match pkt.pts {
                    Some(x) => m.tables_repeated(x),
                    None => m,
                };
                assert(is_sound(a));
                if a.flow.anchored() && !m.plan.tracks[t].is_video && pkt.pts is Some {
                    let held = a.flow.holding(t, pkt);
                    assert(sound(held, m.plan)) by {
                        reveal(sound);
                        reveal(orderly);
                    }
                    lemma_flushed_sound(
                        held,
                        m.plan,
                        held.now(),
                        crate::muxer::deliver::held_count(held.pacer->0.held),
                    );
                } else {
                    lemma_delivered_sound(a.flow, m.plan, t, pkt);
                }
            },
        }
    }
}

/// The end of the stream keeps the output a stream of packets.
pub proof fn lemma_trailer_written_sound(m: MuxView)
    requires
        is_sound(m),
    ensures
        is_sound(m.trailer_written().mux),
{
    lemma_released_sound(
        m.flow,
        m.plan,
        crate::muxer::deliver::held_count(m.flow.pacer->0.held),
    );
    let o = m.flow.released_all(m.plan);
    lemma_tables_written_sound(m.with_flow(o.flow));
}

/// Arming a splicing point or a new time base keeps the output a stream of
/// packets.
pub proof fn lemma_signals_sound(m: MuxView, index: u32, spec: SpliceSpec, number: u16)
    requires
        is_sound(m),
    ensures
        is_sound(m.splice_armed(index, spec).mux),
        is_sound(m.discontinuity_armed(number).mux),
{
    match track_for_index(m.plan, index, 0) {
        None => {},
        Some(t) => {
            lemma_track_in_range(m.plan, index, 0);
            assert(is_sound(m.splice_armed(index, spec).mux)) by {
                reveal(sound);
                reveal(orderly);
                assert(m.flow.tracks[t].wf());
                if owned(m.plan) {
                    let f = m.flow;
                    let now = m.splice_armed(index, spec).mux.flow.tracks;
                    lemma_same_counters(f.out, f.tracks, now, f.table_cc, f.pmt_cc, m.plan);
                }
                if homed(m.plan) {
                    let f = m.flow;
                    let now = m.splice_armed(index, spec).mux.flow.tracks;
                    assert forall|j: int| 0 <= j < m.plan.tracks.len() implies (
                    #[trigger] now[j]).after_splice == f.tracks[j].after_splice && asks_right(
                        now[j],
                        m.plan.tracks[j].is_video,
                    ) by {
                        lemma_asks_right(f.out, f.tracks, m.plan, j);
                    }
                    lemma_same_settled(f.out, f.tracks, now, m.plan);
                }
            }
        },
    }
    match program_for(m.plan, number, 0) {
        None => {},
        Some(p) => {
            lemma_released_sound(
                m.flow,
                m.plan,
                crate::muxer::deliver::held_count(m.flow.pacer->0.held),
            );
            lemma_program_in_range(m.plan, number, 0);
            assert(is_sound(m.discontinuity_armed(number).mux)) by {
                reveal(sound);
                reveal(orderly);
            }
        },
    }
}

/// The stream found is the first one with that index.
pub proof fn lemma_track_in_range(plan: PlanView, index: u32, i: int)
    requires
        0 <= i,
    ensures
        track_for_index(plan, index, i) matches Some(t) ==> i <= t < plan.tracks.len()
            && plan.tracks[t].stream_index == index,
    decreases plan.tracks.len() - i,
{
    if i < plan.tracks.len() && plan.tracks[i].stream_index != index {
        lemma_track_in_range(plan, index, i + 1);
    }
}

pub proof fn lemma_program_in_range(plan: PlanView, number: u16, i: int)
    requires
        0 <= i,
    ensures
        program_for(plan, number, i) matches Some(p) ==> i <= p < plan.programs.len(),
    decreases plan.programs.len() - i,
{
    if i < plan.programs.len() && plan.programs[i].number != number {
        lemma_program_in_range(plan, number, i + 1);
    }
}

} // verus!
