//! How far apart clock references are on the byte clock, and how many bytes a
//! frame takes.
use vstd::prelude::*;

use crate::muxer::byte_clock::{comes_far, has_clock_at};
use crate::muxer::conformance::{
    lemma_packet_at, lemma_packets_clean, lemma_prefix_grows, plain_stream,
};
use crate::muxer::deliver::riders_for;
use crate::muxer::emit::{guarded, tb_key};
use crate::muxer::flow::{
    lemma_null_drains_bsys, lemma_null_drains_tb, AUDIO_TB_RX, BSYS_PACKET_SCALED, BSYS_SIZE_SCALED,
    CBR_PCR_INTERVAL_27MHZ, FlowView, PacketView, PlanView, SYS_TB_KEY, SYS_TB_RX, Slot, TB_SIZE,
    TICKS_PER_BYTE_RATE,
};
use crate::muxer::frame::Riders;
use crate::muxer::laws::{lemma_clocks_len, lemma_tables_keep_counts, tables_count};
use crate::muxer::packets::{
    lemma_pes_packet_len, null_packet, pcr_packet, pes_packet, pes_take, psi_packet, psi_take,
};
use crate::muxer::pes::{frame_error, frame_packets, lemma_ring_bound, ring};
use crate::muxer::plan_laws::laid_out;
use crate::muxer::read_back::{
    carries_field, lemma_bsys_paced_pads, lemma_null_read_back, lemma_packet_field_fits,
    lemma_pcr_now_fits, lemma_pcr_packet_read_back, lemma_pes_packet_read_back,
    lemma_psi_packet_read_back, lemma_tb_paced_pads,
};
use crate::muxer::settling::{at_home, homed, is_clocked};
use crate::muxer::steady::{lemma_clocks_steady, lemma_tb_paced_steady, steady};
use crate::muxer::well_formed::{is_stream, lemma_stream_len, orderly, sound};
use crate::packet::parse::parse_packet_spec;
use crate::validate::discovery::NULL_PID;
use crate::validate::pcr::MAX_PCR_INTERVAL_27MHZ;

verus! {

/// The PID of a packet that carries a clock reference.
pub open spec fn clock_on(packet: Seq<u8>) -> Option<u16> {
    match parse_packet_spec(packet) {
        Ok(p) => match p.adaptation_field {
            Some(af) if af.pcr_base is Some => Some(p.pid),
            _ => None,
        },
        Err(_) => None,
    }
}

/// Where the last clock reference on `pid` starts in `out`.
#[verifier::opaque]
pub open spec fn last_clock(out: Seq<u8>, pid: u16) -> Option<int>
    decreases out.len(),
{
    if out.len() < 188 {
        None
    } else {
        let n = out.len() - 188;
        if clock_on(out.skip(n)) == Some(pid) {
            Some(n)
        } else {
            last_clock(out.take(n), pid)
        }
    }
}

/// Every clock reference in `out` starts at most `limit` bytes after the one before
/// it on its PID.
#[verifier::opaque]
pub open spec fn clocks_close(out: Seq<u8>, limit: int) -> bool
    decreases out.len(),
{
    out.len() < 188 || {
        let n = out.len() - 188;
        &&& clocks_close(out.take(n), limit)
        &&& clock_on(out.skip(n)) matches Some(q) ==> (last_clock(out.take(n), q) matches Some(o)
            ==> n - o <= limit)
    }
}

/// One more packet.
proof fn lemma_clock_put(out: Seq<u8>, packet: Seq<u8>, pid: u16, limit: int)
    requires
        packet.len() == 188,
    ensures
        last_clock(out + packet, pid) == (if clock_on(packet) == Some(pid) {
            Some(out.len() as int)
        } else {
            last_clock(out, pid)
        }),
        clocks_close(out + packet, limit) == {
            &&& clocks_close(out, limit)
            &&& clock_on(packet) matches Some(q) ==> (last_clock(out, q) matches Some(o)
                ==> out.len() - o <= limit)
        },
{
    reveal(last_clock);
    reveal(clocks_close);
    let all = out + packet;
    assert(all.take(all.len() - 188) =~= out);
    assert(all.skip(all.len() - 188) =~= packet);
}

/// No transport buffer is over its size.
pub open spec fn levels_fit(f: FlowView) -> bool {
    &&& f.pacer->0.rate >= 1
    &&& forall|k: u16|
        #[trigger] f.pacer->0.tb.contains_key(k) ==> f.pacer->0.tb[k].0 <= TB_SIZE
            * f.pacer->0.rate && f.pacer->0.tb[k].1 <= f.pos()
}

/// The last clock reference of program `p` is where the byte clock has it, at most
/// `lag` bytes back.
pub open spec fn clock_known(f: FlowView, plan: PlanView, lag: int, p: int) -> bool {
    &&& f.pacer->0.last_pcr[p] matches Some(b) ==> 0 <= f.pos() - b <= lag
    &&& plan.programs[p].pcr_track is Some ==> last_clock(f.out, plan.programs[p].pcr_pid)
        == f.pacer->0.last_pcr[p]
}

/// Paced from the start, with nothing taken out yet: no two clock references are
/// more than `limit` bytes apart, and the last one of every program, if there is
/// one, is at most `lag` bytes back.
#[verifier::opaque]
pub open spec fn in_step(f: FlowView, plan: PlanView, limit: int, lag: int) -> bool {
    &&& f.pacer is Some
    &&& f.drained == 0
    &&& lag >= 0
    &&& f.pacer->0.last_pcr.len() == plan.programs.len()
    &&& forall|p: int| 0 <= p < plan.programs.len() ==> #[trigger] clock_known(f, plan, lag, p)
    &&& clocks_close(f.out, limit)
    &&& levels_fit(f)
}

/// Nothing is written yet.
pub(crate) proof fn lemma_nothing_in_step(f: FlowView, plan: PlanView, limit: int, lag: int)
    requires
        f.out.len() == 0,
        f.drained == 0,
        f.pacer is Some,
        f.pacer->0.rate >= 1,
        f.pacer->0.tb == Map::<u16, (int, int)>::empty(),
        f.pacer->0.last_pcr.len() == plan.programs.len(),
        forall|p: int|
            0 <= p < plan.programs.len() ==> (#[trigger] f.pacer->0.last_pcr[p]) is None,
        lag >= 0,
    ensures
        in_step(f, plan, limit, lag),
{
    reveal(in_step);
    reveal(last_clock);
    reveal(clocks_close);
    assert forall|p: int| 0 <= p < plan.programs.len() implies #[trigger] clock_known(
        f,
        plan,
        lag,
        p,
    ) by {
        assert(f.pacer->0.last_pcr[p] is None);
    }
}

/// From `f` to `g` the clock references stay within any limit that the bytes
/// written, and the last one before them, keep to.
#[verifier::opaque]
pub open spec fn stays(f: FlowView, g: FlowView, plan: PlanView) -> bool {
    &&& f.pos() <= g.pos()
    &&& forall|limit: int, lag: int| #[trigger]
        in_step(f, plan, limit, lag) && lag + (g.pos() - f.pos()) <= limit ==> in_step(
            g,
            plan,
            limit,
            lag + (g.pos() - f.pos()),
        )
}

pub(crate) proof fn lemma_stays(f: FlowView, g: FlowView, plan: PlanView, limit: int, lag: int)
    requires
        stays(f, g, plan),
        in_step(f, plan, limit, lag),
        lag + (g.pos() - f.pos()) <= limit,
    ensures
        in_step(g, plan, limit, lag + (g.pos() - f.pos())),
        f.pos() <= g.pos(),
{
    reveal(stays);
}

pub(crate) proof fn lemma_more_lag(f: FlowView, plan: PlanView, limit: int, a: int, b: int)
    requires
        in_step(f, plan, limit, a),
        a <= b,
    ensures
        in_step(f, plan, limit, b),
{
    reveal(in_step);
    assert forall|p: int| 0 <= p < plan.programs.len() implies #[trigger] clock_known(
        f,
        plan,
        b,
        p,
    ) by {
        assert(clock_known(f, plan, a, p));
    }
}

proof fn lemma_stays_on(f: FlowView, g: FlowView, h: FlowView, plan: PlanView)
    requires
        stays(f, g, plan),
        stays(g, h, plan),
    ensures
        stays(f, h, plan),
{
    reveal(stays);
    assert forall|limit: int, lag: int| #[trigger]
        in_step(f, plan, limit, lag) && lag + (h.pos() - f.pos()) <= limit implies in_step(
        h,
        plan,
        limit,
        lag + (h.pos() - f.pos()),
    ) by {
        lemma_stays(f, g, plan, limit, lag);
        lemma_stays(g, h, plan, limit, lag + (g.pos() - f.pos()));
    }
}

/// What changes neither output nor clock references.
proof fn lemma_same_stays(f: FlowView, g: FlowView, plan: PlanView)
    requires
        g.out == f.out,
        g.drained == f.drained,
        f.pacer is Some ==> g.pacer is Some && g.pacer->0.last_pcr == f.pacer->0.last_pcr && (
        levels_fit(f) ==> levels_fit(g)),
    ensures
        stays(f, g, plan),
{
    reveal(stays);
    assert forall|limit: int, lag: int| #[trigger]
        in_step(f, plan, limit, lag) && lag + (g.pos() - f.pos()) <= limit implies in_step(
        g,
        plan,
        limit,
        lag + (g.pos() - f.pos()),
    ) by {
        reveal(in_step);
        assert forall|p: int| 0 <= p < plan.programs.len() implies #[trigger] clock_known(
            g,
            plan,
            lag,
            p,
        ) by {
            assert(clock_known(f, plan, lag, p));
        }
    }
}

/// What changes neither output nor clock references nor buffers.
pub(crate) proof fn lemma_same_in_step(
    f: FlowView,
    g: FlowView,
    plan: PlanView,
    limit: int,
    lag: int,
)
    requires
        in_step(f, plan, limit, lag),
        g.out == f.out,
        g.drained == f.drained,
        g.pacer is Some,
        g.pacer->0.last_pcr == f.pacer->0.last_pcr,
        g.pacer->0.tb == f.pacer->0.tb,
        g.pacer->0.rate == f.pacer->0.rate,
    ensures
        in_step(g, plan, limit, lag),
{
    reveal(in_step);
    assert forall|p: int| 0 <= p < plan.programs.len() implies #[trigger] clock_known(
        g,
        plan,
        lag,
        p,
    ) by {
        assert(clock_known(f, plan, lag, p));
    }
}

/// A packet without a clock reference.
proof fn lemma_mute_stays(f: FlowView, g: FlowView, packet: Seq<u8>, plan: PlanView)
    requires
        packet.len() == 188,
        clock_on(packet) is None,
        g.out == f.out + packet,
        g.drained == f.drained,
        f.pacer is Some ==> g.pacer is Some && g.pacer->0.last_pcr == f.pacer->0.last_pcr
            && g.pacer->0.tb == f.pacer->0.tb && g.pacer->0.rate == f.pacer->0.rate,
    ensures
        stays(f, g, plan),
{
    reveal(stays);
    assert forall|limit: int, lag: int| #[trigger]
        in_step(f, plan, limit, lag) && lag + (g.pos() - f.pos()) <= limit implies in_step(
        g,
        plan,
        limit,
        lag + (g.pos() - f.pos()),
    ) by {
        reveal(in_step);
        lemma_clock_put(f.out, packet, 0, limit);
        assert forall|p: int| 0 <= p < plan.programs.len() implies #[trigger] clock_known(
            g,
            plan,
            lag + (g.pos() - f.pos()),
            p,
        ) by {
            assert(clock_known(f, plan, lag, p));
            lemma_clock_put(f.out, packet, plan.programs[p].pcr_pid, limit);
        }
    }
}

/// A packet with the clock reference of program `p`.
proof fn lemma_told_stays(f: FlowView, g: FlowView, packet: Seq<u8>, plan: PlanView, p: int)
    requires
        homed(plan),
        packet.len() == 188,
        0 <= p < plan.programs.len(),
        plan.programs[p].pcr_track is Some,
        clock_on(packet) == Some(plan.programs[p].pcr_pid),
        g.out == f.out + packet,
        g.drained == f.drained,
        f.pacer is Some ==> g.pacer is Some && g.pacer->0.last_pcr
            == f.pacer->0.last_pcr.update(p, Some(f.pos())) && g.pacer->0.tb == f.pacer->0.tb
            && g.pacer->0.rate == f.pacer->0.rate,
    ensures
        stays(f, g, plan),
{
    reveal(stays);
    assert forall|limit: int, lag: int| #[trigger]
        in_step(f, plan, limit, lag) && lag + (g.pos() - f.pos()) <= limit implies in_step(
        g,
        plan,
        limit,
        lag + (g.pos() - f.pos()),
    ) by {
        reveal(in_step);
        assert(clock_known(f, plan, lag, p));
        lemma_clock_put(f.out, packet, 0, limit);
        assert forall|q: int| 0 <= q < plan.programs.len() implies #[trigger] clock_known(
            g,
            plan,
            lag + (g.pos() - f.pos()),
            q,
        ) by {
            assert(clock_known(f, plan, lag, q));
            lemma_clock_put(f.out, packet, plan.programs[q].pcr_pid, limit);
            if q != p && plan.programs[q].pcr_track is Some {
                lemma_clocks_apart(plan, p, q);
            }
        }
    }
}

/// Programs with a clock of their own have it on different PIDs.
proof fn lemma_clocks_apart(plan: PlanView, p: int, q: int)
    requires
        homed(plan),
        0 <= p < plan.programs.len(),
        0 <= q < plan.programs.len(),
        p != q,
        plan.programs[p].pcr_track is Some,
        plan.programs[q].pcr_track is Some,
    ensures
        plan.programs[p].pcr_pid != plan.programs[q].pcr_pid,
{
    reveal(at_home);
    reveal(laid_out);
    let t = plan.programs[q].pcr_track->0 as int;
    assert(plan.tracks[t].pid == plan.programs[q].pcr_pid);
}

pub(crate) proof fn lemma_null_stays(f: FlowView, plan: PlanView)
    ensures
        stays(f, f.put(null_packet()), plan),
        f.put(null_packet()).pos() == f.pos() + 188,
{
    lemma_null_read_back();
    lemma_mute_stays(f, f.put(null_packet()), null_packet(), plan);
}

/// Bytes that a packet of a stream takes: before it null packets go out until its
/// transport buffer has room. Video buffers drain faster than any rate.
pub open spec fn packet_bytes(rate: int, is_video: bool) -> int {
    if is_video { 188 } else { 188 * (rate / AUDIO_TB_RX as int + 2) }
}

/// Waiting for room in a transport buffer. The buffer drains meanwhile: the part of
/// a packet that lacks room, at `rx` for every bit of the stream.
proof fn lemma_tb_paced_stays(f: FlowView, key: u16, rx: int, plan: PlanView)
    ensures
        stays(f, f.tb_paced(key, rx), plan),
        ({
            let g = f.tb_paced(key, rx);
            let p = f.pacer->0;
            let excess = p.tb_level(key, rx, f.pos()) + 188 * p.rate - TB_SIZE * p.rate;
            &&& (g.pos() - f.pos()) % 188 == 0
            &&& f.pacer is Some && levels_fit(f) ==> {
                &&& levels_fit(g)
                &&& g.pacer is Some
                &&& g.pacer->0.rate == p.rate
                &&& g.pos() == f.pos() || rx * (g.pos() - f.pos()) < excess + 188 * rx
            }
        }),
    decreases f.pacer->0.tb_level(key, rx, f.pos()),
{
    lemma_same_stays(f, f, plan);
    if f.pacer is Some && rx > 0 {
        let p = f.pacer->0;
        let level = p.tb_level(key, rx, f.pos());
        if level + 188 * p.rate <= TB_SIZE * p.rate || level <= 0 {
            let g = f.with_tb(key, level + 188 * p.rate);
            lemma_same_stays(f, g, plan);
        } else {
            lemma_null_drains_tb(f, key, rx);
            let a = f.with_tb(key, level);
            assert(levels_fit(f) ==> level <= TB_SIZE * p.rate) by {
                if p.tb.contains_key(key) && levels_fit(f) {
                    assert(rx * (f.pos() - p.tb[key].1) >= 0) by (nonlinear_arith)
                        requires
                            rx > 0,
                            f.pos() - p.tb[key].1 >= 0,
                    ;
                }
            }
            lemma_same_stays(f, a, plan);
            let b = a.put(null_packet());
            lemma_null_stays(a, plan);
            lemma_stays_on(f, a, b, plan);
            lemma_tb_paced_stays(b, key, rx, plan);
            let g = b.tb_paced(key, rx);
            lemma_stays_on(f, b, g, plan);
            assert(rx * (g.pos() - f.pos()) == rx * (g.pos() - b.pos()) + 188 * rx)
                by (nonlinear_arith)
                requires
                    b.pos() == f.pos() + 188,
            ;
            if b.pacer->0.tb_level(key, rx, b.pos()) <= 0 {
                assert(g.pos() == b.pos());
            }
            if g.pos() == b.pos() {
                assert(rx * (g.pos() - b.pos()) == 0) by (nonlinear_arith)
                    requires
                        g.pos() == b.pos(),
                ;
            }
            if levels_fit(f) {
                assert(levels_fit(b));
                assert(g.pos() == f.pos() || rx * (g.pos() - f.pos()) < level + 188 * p.rate
                    - TB_SIZE * p.rate + 188 * rx);
            }
        }
    }
}

proof fn lemma_bsys_paced_stays(f: FlowView, plan: PlanView)
    ensures
        stays(f, f.bsys_paced(), plan),
    decreases f.pacer->0.bsys_level(f.pos()),
{
    lemma_same_stays(f, f, plan);
    if f.pacer is Some {
        let p = f.pacer->0;
        let level = p.bsys_level(f.pos());
        if level + BSYS_PACKET_SCALED * p.rate <= BSYS_SIZE_SCALED * p.rate || level <= 0 {
            lemma_same_stays(f, f.with_bsys(level + BSYS_PACKET_SCALED * p.rate), plan);
        } else {
            lemma_null_drains_bsys(f);
            let a = f.with_bsys(level);
            let b = a.put(null_packet());
            lemma_same_stays(f, a, plan);
            lemma_null_stays(a, plan);
            lemma_stays_on(f, a, b, plan);
            lemma_bsys_paced_stays(b, plan);
            lemma_stays_on(f, b, b.bsys_paced(), plan);
        }
    }
}

/// A section has no clock reference.
proof fn lemma_section_stays(
    f: FlowView,
    plan: PlanView,
    pid: u16,
    slot: Slot,
    key: u16,
    rest: Seq<u8>,
    start: bool,
)
    requires
        tables_count(f, plan),
        plan.has_slot(slot),
        pid < 0x1FFF,
    ensures
        stays(f, f.section_put(pid, slot, key, rest, start), plan),
    decreases rest.len() + (if start { 1int } else { 0 }),
{
    lemma_same_stays(f, f, plan);
    if start || rest.len() > 0 {
        let a = f.tb_paced(key, SYS_TB_RX as int);
        let b = if key == SYS_TB_KEY { a.bsys_paced() } else { a };
        lemma_tb_paced_stays(f, key, SYS_TB_RX as int, plan);
        lemma_bsys_paced_stays(a, plan);
        if key == SYS_TB_KEY {
            lemma_stays_on(f, a, b, plan);
        }
        lemma_tb_paced_pads(f, key, SYS_TB_RX as int, 0);
        lemma_bsys_paced_pads(a, 0);
        let cc = b.counter(slot);
        assert(cc < 16);
        let packet = psi_packet(pid, cc, start, rest);
        lemma_psi_packet_read_back(pid, cc, start, rest);
        let c = b.put(packet).count_table(slot);
        lemma_mute_stays(b, c, packet, plan);
        lemma_stays_on(f, b, c, plan);
        let n = psi_take(start, rest.len() as int);
        lemma_section_stays(c, plan, pid, slot, key, rest.skip(n), false);
        lemma_stays_on(f, c, c.section_put(pid, slot, key, rest.skip(n), false), plan);
    }
}

/// The tables have no clock reference.
proof fn lemma_tables_stay(f: FlowView, plan: PlanView, n: int)
    requires
        laid_out(plan),
        tables_count(f, plan),
        0 <= n <= plan.tables.len(),
    ensures
        stays(f, f.tables_put(plan, n), plan),
    decreases n,
{
    lemma_same_stays(f, f, plan);
    if n > 0 {
        let t = plan.tables[n - 1];
        assert(plan.wf() && t.pid < 0x1FFF) by {
            reveal(laid_out);
        }
        lemma_tables_stay(f, plan, n - 1);
        lemma_tables_keep_counts(f, plan, n - 1);
        let a = f.tables_put(plan, n - 1);
        lemma_section_stays(a, plan, t.pid, t.slot, tb_key(plan, t.pid), t.section, true);
        lemma_stays_on(f, a, f.tables_put(plan, n), plan);
    }
}

/// Any tables.
pub(crate) proof fn lemma_all_tables_stay(f: FlowView, plan: PlanView)
    requires
        homed(plan),
        sound(f, plan),
    ensures
        stays(f, f.tables_put(plan, plan.tables.len() as int), plan),
{
    assert(tables_count(f, plan)) by {
        reveal(sound);
        reveal(orderly);
    }
    lemma_tables_stay(f, plan, plan.tables.len() as int);
}

/// The clock reference of program `p`, if it is due.
proof fn lemma_due_stays(f: FlowView, plan: PlanView, p: int)
    requires
        homed(plan),
        0 <= p < plan.programs.len(),
    ensures
        stays(f, f.clock_put(plan, p), plan),
{
    let g = f.clock_put(plan, p);
    lemma_same_stays(f, f, plan);
    if f.anchored() && f.pcr_due(p) {
        let (base, ext) = f.pcr_now();
        let prog = plan.programs[p];
        match prog.pcr_track {
            Some(t) => {
                let cc = ((f.tracks[t as int].cc + 15) % 16) as u8;
                let d = f.programs[p].discontinuity;
                let packet = pcr_packet(prog.pcr_pid, cc, d, base, ext);
                assert(prog.pcr_pid < 0x2000) by {
                    reveal(laid_out);
                }
                lemma_pcr_now_fits(f);
                lemma_pcr_packet_read_back(prog.pcr_pid, cc, d, base, ext);
                assert(g.out == f.out + packet);
                lemma_told_stays(f, g, packet, plan, p);
            },
            None => {
                lemma_forgotten_stays(f, g, plan, p);
            },
        }
    }
}

/// A program without a clock.
proof fn lemma_forgotten_stays(f: FlowView, g: FlowView, plan: PlanView, p: int)
    requires
        0 <= p < plan.programs.len(),
        plan.programs[p].pcr_track is None,
        g.out == f.out,
        g.drained == f.drained,
        f.pacer is Some ==> g.pacer is Some && g.pacer->0.last_pcr
            == f.pacer->0.last_pcr.update(p, Some(f.pos())) && g.pacer->0.tb == f.pacer->0.tb
            && g.pacer->0.rate == f.pacer->0.rate,
    ensures
        stays(f, g, plan),
{
    reveal(stays);
    assert forall|limit: int, lag: int| #[trigger]
        in_step(f, plan, limit, lag) && lag + (g.pos() - f.pos()) <= limit implies in_step(
        g,
        plan,
        limit,
        lag + (g.pos() - f.pos()),
    ) by {
        reveal(in_step);
        assert forall|q: int| 0 <= q < plan.programs.len() implies #[trigger] clock_known(
            g,
            plan,
            lag + (g.pos() - f.pos()),
            q,
        ) by {
            assert(clock_known(f, plan, lag, q));
        }
    }
}

/// The clock references that are due.
proof fn lemma_clocks_stay(f: FlowView, plan: PlanView, n: int)
    requires
        homed(plan),
        0 <= n <= plan.programs.len(),
    ensures
        stays(f, f.clocks_put(plan, n), plan),
    decreases n,
{
    lemma_same_stays(f, f, plan);
    if n > 0 {
        lemma_clocks_stay(f, plan, n - 1);
        let a = f.clocks_put(plan, n - 1);
        lemma_due_stays(a, plan, n - 1);
        lemma_stays_on(f, a, f.clocks_put(plan, n), plan);
    }
}

/// A packet of a PES packet.
proof fn lemma_packet_stays(
    f: FlowView,
    plan: PlanView,
    t: int,
    riders: Riders,
    start: bool,
    run: Option<int>,
    rest: Seq<u8>,
)
    requires
        homed(plan),
        0 <= t < plan.tracks.len(),
        f.tracks.len() == plan.tracks.len(),
        f.tracks[t].cc < 16,
        riders.wf(),
        riders.pcr is Some ==> f.anchored() && is_clocked(plan, t),
        rest.len() > 0,
    ensures
        ({
            let g = f.packet_put(plan, t, riders, start, run, rest);
            &&& stays(f, g, plan)
            &&& g.pos() == f.pos() + 188
            &&& f.pacer is Some && levels_fit(f) ==> levels_fit(g)
            &&& g.anchored() == f.anchored()
            &&& g.pacer is Some == f.pacer is Some
            &&& g.pacer is Some ==> g.pacer->0.rate == f.pacer->0.rate
            &&& g.tracks.len() == f.tracks.len()
            &&& g.tracks[t].cc < 16
        }),
{
    let g = f.packet_put(plan, t, riders, start, run, rest);
    let left = rest.len() as int;
    let field = f.packet_field(plan, t, riders, start, run, left);
    let cc = f.tracks[t].cc;
    let pid = plan.tracks[t].pid;
    assert(plan.wf() && pid < 0x1FFF) by {
        reveal(laid_out);
    }
    lemma_packet_field_fits(f, plan, t, riders, start, run, left);
    lemma_pes_packet_len(pid, cc, start, field, rest);
    let packet = pes_packet(pid, cc, start, field, rest);
    lemma_pes_packet_read_back(pid, cc, start, field, rest);
    assert(carries_field(parse_packet_spec(packet)->Ok_0, field));
    assert(g.out == f.out + packet);
    if field.pcr is Some {
        let p = plan.tracks[t].program as int;
        assert(plan.programs[p].pcr_track is Some && 0 <= p < plan.programs.len()) by {
            reveal(at_home);
            reveal(laid_out);
        }
        assert(clock_on(packet) == Some(pid));
        lemma_told_stays(f, g, packet, plan, p);
    } else {
        assert(clock_on(packet) is None);
        lemma_mute_stays(f, g, packet, plan);
    }
}

/// The rest of a PES packet. Every packet but the last takes 168 bytes of it or
/// more.
proof fn lemma_rest_stays(
    f: FlowView,
    plan: PlanView,
    t: int,
    riders: Riders,
    start: bool,
    run: Option<int>,
    rest: Seq<u8>,
)
    requires
        homed(plan),
        0 <= t < plan.tracks.len(),
        f.tracks.len() == plan.tracks.len(),
        f.tracks[t].cc < 16,
        riders.wf(),
        riders.pcr is Some ==> f.anchored() && is_clocked(plan, t),
    ensures
        ({
            let g = f.rest_put(plan, t, riders, start, run, rest);
            &&& stays(f, g, plan)
            &&& g.anchored() == f.anchored()
            &&& g.tracks.len() == f.tracks.len()
            &&& g.tracks[t].cc < 16
            &&& f.pacer is Some && levels_fit(f) ==> {
                &&& g.pacer is Some
                &&& g.pacer->0.rate == f.pacer->0.rate
                &&& levels_fit(g)
                &&& g.pos() - f.pos() <= packet_bytes(f.pacer->0.rate, plan.tracks[t].is_video) * (
                rest.len() as int / 168 + 1)
            }
        }),
    decreases rest.len(),
{
    lemma_same_stays(f, f, plan);
    let left = rest.len() as int;
    let rate = f.pacer->0.rate;
    let each = packet_bytes(rate, plan.tracks[t].is_video);
    if left > 0 {
        let a = f.paced_for(plan, t);
        let key = plan.tracks[t].pid;
        if !plan.tracks[t].is_video {
            lemma_tb_paced_stays(f, key, AUDIO_TB_RX as int, plan);
            lemma_tb_paced_steady(f, key, AUDIO_TB_RX as int);
        }
        assert(a.tracks.len() == f.tracks.len() && a.tracks[t] == f.tracks[t] && a.anchored()
            == f.anchored()) by {
            reveal(steady);
        }
        lemma_packet_field_fits(a, plan, t, riders, start, run, left);
        let field = a.packet_field(plan, t, riders, start, run, left);
        lemma_pes_packet_len(key, 0, start, field, rest);
        let n = pes_take(field, left);
        assert(n == left || n >= 168);
        let b = a.packet_put(plan, t, riders, start, run, rest);
        lemma_packet_stays(a, plan, t, riders, start, run, rest);
        lemma_stays_on(f, a, b, plan);
        let next = a.run_after(plan, t, riders, start, run, left);
        lemma_rest_stays(b, plan, t, riders, false, next, rest.skip(n));
        let g = b.rest_put(plan, t, riders, false, next, rest.skip(n));
        lemma_stays_on(f, b, g, plan);
        assert(g == f.rest_put(plan, t, riders, start, run, rest));
        if f.pacer is Some && levels_fit(f) {
            assert(levels_fit(a) && a.pacer->0.rate == rate);
            assert(b.pos() - f.pos() <= each) by {
                lemma_tb_wait(f, key, plan);
            }
            let tail = left - n;
            if tail == 0 {
                assert(g.pos() == b.pos());
                assert(each <= each * (left / 168 + 1)) by (nonlinear_arith)
                    requires
                        each >= 0,
                        left >= 0,
                ;
            } else {
                assert(tail / 168 + 1 <= left / 168);
                assert(each + each * (tail / 168 + 1) <= each * (left / 168 + 1))
                    by (nonlinear_arith)
                    requires
                        each >= 0,
                        tail / 168 + 1 <= left / 168,
                ;
            }
        }
    } else if f.pacer is Some && levels_fit(f) {
        assert(each * (left / 168 + 1) >= 0) by (nonlinear_arith)
            requires
                each >= 0,
                left == 0,
        ;
    }
}

/// The null packets before a packet of a stream that is no video.
proof fn lemma_tb_wait(f: FlowView, key: u16, plan: PlanView)
    requires
        f.pacer is Some,
        levels_fit(f),
    ensures
        f.tb_paced(key, AUDIO_TB_RX as int).pos() - f.pos() <= 188 * (f.pacer->0.rate
            / AUDIO_TB_RX as int + 1),
{
    let p = f.pacer->0;
    let rx = AUDIO_TB_RX as int;
    let g = f.tb_paced(key, rx);
    lemma_tb_paced_stays(f, key, rx, plan);
    if p.tb.contains_key(key) {
        assert(rx * (f.pos() - p.tb[key].1) >= 0) by (nonlinear_arith)
            requires
                rx > 0,
                f.pos() - p.tb[key].1 >= 0,
        ;
    }
    let d = g.pos() - f.pos();
    assert(d == 188 * (d / 188));
}

/// An upper bound on the packets that the first `n` of the PES packets `packets`
/// take, whatever goes along with them.
pub open spec fn packets_at_most(packets: Seq<Seq<u8>>, n: int) -> int
    decreases n,
{
    if n <= 0 {
        0
    } else {
        packets_at_most(packets, n - 1) + packets[n - 1].len() as int / 168 + 1
    }
}

/// An upper bound on the bytes of the output that frame `pkt` of stream `t` takes at
/// `rate`, with the null packets that its transport buffer asks for.
pub open spec fn wire_bytes(plan: PlanView, rate: int, t: int, pkt: PacketView) -> int {
    let track = plan.tracks[t];
    match frame_error(track.stream_id, pkt.pts, pkt.dts, pkt.data.len() as int) {
        Some(_) => 0,
        None => {
            let packets = frame_packets(track.stream_id, pkt.pts, pkt.dts, pkt.data);
            packet_bytes(rate, track.is_video) * packets_at_most(packets, packets.len() as int)
        },
    }
}

/// The PES packets of a frame.
proof fn lemma_frame_stays(
    f: FlowView,
    plan: PlanView,
    t: int,
    riders: Riders,
    packets: Seq<Seq<u8>>,
    n: int,
)
    requires
        homed(plan),
        0 <= t < plan.tracks.len(),
        f.tracks.len() == plan.tracks.len(),
        f.tracks[t].cc < 16,
        riders.wf(),
        riders.pcr is Some ==> f.anchored() && is_clocked(plan, t),
        n <= packets.len(),
    ensures
        ({
            let g = f.frame_put(plan, t, riders, packets, n);
            &&& stays(f, g, plan)
            &&& g.anchored() == f.anchored()
            &&& g.tracks.len() == f.tracks.len()
            &&& g.tracks[t].cc < 16
            &&& f.pacer is Some && levels_fit(f) ==> {
                &&& g.pacer is Some
                &&& g.pacer->0.rate == f.pacer->0.rate
                &&& levels_fit(g)
                &&& g.pos() - f.pos() <= packet_bytes(f.pacer->0.rate, plan.tracks[t].is_video)
                    * packets_at_most(packets, n)
            }
        }),
    decreases n,
{
    lemma_same_stays(f, f, plan);
    let each = packet_bytes(f.pacer->0.rate, plan.tracks[t].is_video);
    if n > 0 {
        lemma_frame_stays(f, plan, t, riders, packets, n - 1);
        let a = f.frame_put(plan, t, riders, packets, n - 1);
        let mine = riders_for(riders, n - 1, packets.len() - 1);
        let pes = packets[n - 1];
        let b = match mine.splice {
            None => a,
            Some(_) => a.with_after_splice(t, None),
        };
        lemma_same_stays(a, b, plan);
        lemma_stays_on(f, a, b, plan);
        lemma_rest_stays(b, plan, t, mine, true, None, pes);
        let c = b.rest_put(plan, t, mine, true, None, pes);
        lemma_stays_on(f, b, c, plan);
        let g = f.frame_put(plan, t, riders, packets, n);
        lemma_same_stays(c, g, plan);
        lemma_stays_on(f, c, g, plan);
        let x = packets_at_most(packets, n - 1);
        let y = pes.len() as int / 168 + 1;
        assert(each * x + each * y == each * (x + y)) by (nonlinear_arith);
    } else {
        assert(each * 0 == 0);
    }
}

/// A frame that is sent on the byte clock, or without a timestamp.
pub(crate) proof fn lemma_sent_stays(
    f: FlowView,
    plan: PlanView,
    t: int,
    pkt: PacketView,
    paced: bool,
)
    requires
        homed(plan),
        sound(f, plan),
        0 <= t < plan.tracks.len(),
        pkt.pts is Some ==> paced && f.anchored(),
    ensures
        ({
            let g = f.sent(plan, t, pkt, paced).flow;
            &&& stays(f, g, plan)
            &&& f.pacer is Some && levels_fit(f) ==> g.pos() - f.pos() <= wire_bytes(
                plan,
                f.pacer->0.rate,
                t,
                pkt,
            )
        }),
{
    reveal(FlowView::sent);
    let track = plan.tracks[t];
    let p = track.program as int;
    let own = track.pid == plan.programs[p].pcr_pid;
    lemma_same_stays(f, f, plan);
    assert(f.pcrs_before(plan, t, pkt.pts, paced) == f);
    if frame_error(track.stream_id, pkt.pts, pkt.dts, pkt.data.len() as int) is None {
        let packets = frame_packets(track.stream_id, pkt.pts, pkt.dts, pkt.data);
        let inline = own && pkt.pts is Some;
        let c = if inline { f.with_last_pcr(p, guarded(pkt.pts->0)) } else { f };
        let riders = Riders {
            pcr: if inline { Some((ring(guarded(pkt.pts->0)), 0u16)) } else { None },
            random_access: pkt.keyframe && (!own || inline),
            splice: c.tracks[t].splice,
        };
        let d = c.splice_taken(t);
        assert(f.tracks.len() == plan.tracks.len() && f.tracks[t].wf()) by {
            reveal(sound);
            reveal(orderly);
        }
        if inline {
            lemma_ring_bound(guarded(pkt.pts->0));
        }
        assert(riders.wf());
        lemma_same_stays(f, d, plan);
        lemma_frame_stays(d, plan, t, riders, packets, packets.len() as int);
        lemma_stays_on(
            f,
            d,
            d.frame_put(plan, t, riders, packets, packets.len() as int),
            plan,
        );
    }
}

/// The bytes of 40 ms at `rate`, rounded down.
pub open spec fn clock_interval_bytes(rate: int) -> int {
    CBR_PCR_INTERVAL_27MHZ * rate / TICKS_PER_BYTE_RATE as int
}

/// Once the clock references that are due are written, every program has one, and
/// the last is at most 40 ms back, but for those references themselves.
proof fn lemma_clocks_fresh(f: FlowView, plan: PlanView, n: int, p: int)
    requires
        homed(plan),
        f.anchored(),
        f.pacer->0.rate >= 1,
        f.pacer->0.last_pcr.len() == plan.programs.len(),
        0 <= p < n <= plan.programs.len(),
    ensures
        ({
            let g = f.clocks_put(plan, n);
            &&& g.pacer->0.last_pcr[p] matches Some(b) && g.pos() - b <= clock_interval_bytes(
                f.pacer->0.rate,
            ) + 188 * n
        }),
    decreases n,
{
    let rate = f.pacer->0.rate;
    lemma_clocks_steady(f, plan, n - 1);
    let a = f.clocks_put(plan, n - 1);
    assert(a.anchored() && a.pacer->0.rate == rate) by {
        reveal(steady);
    }
    lemma_clocks_listed(f, plan, n - 1);
    let g = f.clocks_put(plan, n);
    lemma_clock_len(a, plan, n - 1);
    if p < n - 1 {
        lemma_clocks_fresh(f, plan, n - 1, p);
    } else {
        let due = a.pcr_due(p);
        if !due {
            let d = a.pos() - a.pacer->0.last_pcr[p]->0;
            let x = d * TICKS_PER_BYTE_RATE;
            vstd::arithmetic::div_mod::lemma_fundamental_div_mod(x, rate);
            vstd::arithmetic::div_mod::lemma_mod_bound(x, rate);
            assert(x < CBR_PCR_INTERVAL_27MHZ * rate) by (nonlinear_arith)
                requires
                    x == rate * (x / rate) + x % rate,
                    0 <= x % rate < rate,
                    x / rate < CBR_PCR_INTERVAL_27MHZ,
                    rate >= 1,
            ;
            assert(d <= clock_interval_bytes(rate));
        } else {
            assert(clock_interval_bytes(rate) >= 0);
        }
    }
}

/// Every program has its entry.
proof fn lemma_clocks_listed(f: FlowView, plan: PlanView, n: int)
    requires
        n <= f.pacer->0.last_pcr.len(),
    ensures
        f.clocks_put(plan, n).pacer->0.last_pcr.len() == f.pacer->0.last_pcr.len(),
    decreases n,
{
    if n > 0 {
        lemma_clocks_listed(f, plan, n - 1);
    }
}

/// A clock reference is one packet.
proof fn lemma_clock_len(f: FlowView, plan: PlanView, p: int)
    requires
        homed(plan),
        0 <= p < plan.programs.len(),
    ensures
        f.pos() <= f.clock_put(plan, p).pos() <= f.pos() + 188,
{
    lemma_pcr_now_fits(f);
    let (base, ext) = f.pcr_now();
    match plan.programs[p].pcr_track {
        Some(t) => {
            let cc = ((f.tracks[t as int].cc + 15) % 16) as u8;
            assert(plan.programs[p].pcr_pid < 0x2000) by {
                reveal(laid_out);
            }
            lemma_pcr_packet_read_back(
                plan.programs[p].pcr_pid,
                cc,
                f.programs[p].discontinuity,
                base,
                ext,
            );
        },
        None => {},
    }
}

/// After the clock references that are due, the last one of every program is at
/// most 40 ms back, but for those references themselves.
pub(crate) proof fn lemma_clocks_in_step(f: FlowView, plan: PlanView, limit: int, lag: int)
    requires
        homed(plan),
        f.anchored(),
        in_step(f, plan, limit, lag),
        lag + 188 * plan.programs.len() <= limit,
    ensures
        in_step(
            f.clocks_put(plan, plan.programs.len() as int),
            plan,
            limit,
            clock_interval_bytes(f.pacer->0.rate) + 188 * plan.programs.len(),
        ),
{
    let n = plan.programs.len() as int;
    let g = f.clocks_put(plan, n);
    let fresh = clock_interval_bytes(f.pacer->0.rate) + 188 * n;
    lemma_clocks_stay(f, plan, n);
    lemma_clocks_len(f, plan, n);
    lemma_stays(f, g, plan, limit, lag);
    let now = lag + (g.pos() - f.pos());
    assert(f.pacer->0.rate >= 1 && f.pacer->0.last_pcr.len() == n) by {
        reveal(in_step);
    }
    assert forall|p: int| 0 <= p < n implies #[trigger] clock_known(g, plan, fresh, p) by {
        assert(clock_known(g, plan, now, p)) by {
            reveal(in_step);
        }
        lemma_clocks_fresh(f, plan, n, p);
    }
    reveal(in_step);
}

/// A validation remembers the last clock reference of a PID.
proof fn lemma_last_remembered(out: Seq<u8>, pid: u16, i: int)
    requires
        is_stream(out),
        out.len() <= u64::MAX,
        0 <= i <= plain_stream(out).len(),
        pid != NULL_PID,
    ensures
        plain_stream(out).pcr_state(pid, i).last matches Some((_, o)) ==> last_clock(
            out.take(188 * i),
            pid,
        ) == Some(o as int),
    decreases i,
{
    if i > 0 {
        let s = plain_stream(out);
        lemma_last_remembered(out, pid, i - 1);
        lemma_stream_len(out);
        lemma_packet_at(out, i - 1);
        lemma_prefix_grows(out, i - 1);
        lemma_packets_clean(out, i - 1);
        lemma_clock_put(out.take(188 * (i - 1)), s.raw(i - 1), pid, 0);
        assert(s.layout.size() == 188);
        assert((i - 1) * 188 == 188 * (i - 1));
        assert(s.offset(i - 1) == 188 * (i - 1));
    }
}

/// Every clock reference keeps to a limit that all of them keep to.
proof fn lemma_close_at(out: Seq<u8>, limit: int, i: int)
    requires
        is_stream(out),
        clocks_close(out, limit),
        0 <= i <= plain_stream(out).len(),
    ensures
        clocks_close(out.take(188 * i), limit),
    decreases plain_stream(out).len() - i,
{
    lemma_stream_len(out);
    lemma_packet_at(out, i);
    if i == plain_stream(out).len() {
        assert(out.take(188 * i) =~= out);
    } else {
        lemma_close_at(out, limit, i + 1);
        lemma_prefix_grows(out, i);
        lemma_packets_clean(out, i);
        lemma_clock_put(out.take(188 * i), plain_stream(out).raw(i), 0, limit);
    }
}

/// No clock reference comes far after the one before it if all of them keep to a
/// limit that takes at most 0,1 s.
pub(crate) proof fn lemma_close_not_far(out: Seq<u8>, limit: int, rate: int, i: int)
    requires
        is_stream(out),
        out.len() <= u64::MAX,
        clocks_close(out, limit),
        limit * TICKS_PER_BYTE_RATE <= MAX_PCR_INTERVAL_27MHZ * rate,
        0 <= i < plain_stream(out).len(),
    ensures
        !comes_far(plain_stream(out), rate, i),
{
    let s = plain_stream(out);
    if has_clock_at(s, i) && s.pcr_state(s.packet(i).pid, i).last is Some {
        let pid = s.packet(i).pid;
        lemma_stream_len(out);
        lemma_packet_at(out, i);
        lemma_last_remembered(out, pid, i);
        lemma_close_at(out, limit, i + 1);
        lemma_prefix_grows(out, i);
        lemma_packets_clean(out, i);
        lemma_clock_put(out.take(188 * i), s.raw(i), pid, limit);
        assert(clock_on(s.raw(i)) == Some(pid));
        let o = (s.pcr_state(pid, i).last->0).1;
        assert(188 * i - o <= limit);
    }
}

} // verus!
