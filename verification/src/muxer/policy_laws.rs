//! What the multiplexer promises in numbers: when tables and clock references come, how
//! early frames arrive, how buffers drain, and what a frame looks like on the wire.
use vstd::prelude::*;

use crate::bits::lemma_byte_bits;
use crate::muxer::clocking::lemma_ring_is_modular;
use crate::muxer::config::{
    language_code, MpegTsMuxConfig, MuxError, MuxPacket, MuxStream, SpliceSpec,
};
use crate::muxer::deliver::{decode_time, first_due, held_due, lead_of, lemma_first_due, ticks_27};
use crate::muxer::emit::guarded;
use crate::muxer::flow::{
    lemma_null_drains_bsys, lemma_null_drains_tb, BSYS_PACKET_SCALED, BSYS_SIZE_SCALED, FlowView,
    PacerView, PacketView, PlanView, TrackPlan,
};
use crate::muxer::frame::Riders;
use crate::muxer::frame_read_back::{frame_units, lemma_frame_units, next_units, payload_of};
use crate::muxer::laws::lemma_pcr_gap_filled;
use crate::muxer::mux::{is_single_program, program_for, splice_error, track_for_index, MuxView};
use crate::muxer::packets::{needed, null_packet};
use crate::muxer::pes::{first_header, first_len, frame_error, is_mux_stream_id, ring};
use crate::muxer::plan::{clocked, track_on, DraftView};
use crate::muxer::read_back::{
    lemma_header_bits, lemma_null_read_back, lemma_step_read_back, packets_on, stepped,
};
use crate::packet::parse::{parse_packet_spec, TsPacketView};

verus! {

/// A clock reference is 10 ms behind the PTS of the frame it goes with, as far as there is
/// time before it: a hundredth of 90000 ticks.
pub proof fn lemma_reference_behind_pts(pts: i64)
    ensures
        pts >= 900 ==> 100 * (pts - guarded(pts)) == 90_000,
        pts < 900 ==> guarded(pts) == 0,
{
}

/// On the wire a time has 33 bits.
pub proof fn lemma_wire_time(t: i64)
    requires
        t >= 0,
    ensures
        ring(t) < 0x2_0000_0000,
        (t - ring(t)) % 0x2_0000_0000 == 0,
{
    lemma_ring_is_modular(t);
    let m = 0x2_0000_0000int;
    vstd::arithmetic::div_mod::lemma_fundamental_div_mod(t as int, m);
    vstd::arithmetic::div_mod::lemma_mod_multiples_basic(t as int / m, m);
    assert(t - ring(t) == (t as int / m) * m) by (nonlinear_arith)
        requires
            t as int == m * (t as int / m) + ring(t),
    ;
}

/// A frame of video arrives a quarter of a second before its decode time, one of anything
/// else 40 ms before it, on the 27 MHz clock, which has 300 ticks for each of 90 kHz. The
/// decode time is the DTS where there is one.
pub proof fn lemma_arrives_ahead(pkt: PacketView, t: i64)
    ensures
        4 * lead_of(true) == 27_000_000,
        25 * lead_of(false) == 27_000_000,
        -0x40_0000_0000_0000 < t < 0x40_0000_0000_0000 ==> ticks_27(t) == 300 * t,
        pkt.dts is Some ==> decode_time(pkt) == pkt.dts,
        pkt.dts is None ==> decode_time(pkt) == pkt.pts,
        decode_time(pkt) matches Some(d) ==> held_due(pkt) == ticks_27(d) - lead_of(false),
{
}

/// Of the held frames that are first on their streams, the one that goes out has the
/// earliest time; of those at the same time that of the earlier stream.
pub proof fn lemma_earliest_goes_first(held: Seq<Seq<PacketView>>, n: int, i: int)
    requires
        0 <= i < n <= held.len(),
        held[i].len() > 0,
    ensures
        first_due(held, n) matches Some(t) && {
            &&& 0 <= t < n
            &&& held[t].len() > 0
            &&& held_due(held[t][0]) <= held_due(held[i][0])
            &&& i < t ==> held_due(held[t][0]) < held_due(held[i][0])
        },
    decreases n,
{
    if n > 1 {
        if i < n - 1 {
            lemma_earliest_goes_first(held, n - 1, i);
        } else if first_due(held, n - 1) is Some {
            lemma_first_due(held, n - 1);
        }
    }
}

/// Tables are repeated with a frame if its PTS is an interval or more after the frame they
/// last came with, and under pacing only if the system buffer has room; the first PTS
/// starts the interval, and without one they are never repeated. It is 200 ms unless
/// another is set.
pub proof fn lemma_tables_come_again(m: MuxView, pts: i64)
    ensures
        ({
            let a = m.tables_repeated(pts);
            let on = m.psi_repetition is Some && m.psi_repetition->0 > 0;
            let due = m.last_psi matches Some(l) && pts - l >= m.psi_repetition->0;
            &&& !on ==> a == m
            &&& on && m.last_psi is None ==> a.flow == m.flow && a.last_psi == Some(pts)
            &&& on && due && m.tables_fit() ==> a.last_psi == Some(pts) && a.flow
                == m.flow.tables_put(m.plan, m.plan.tables.len() as int)
            &&& on && m.last_psi is Some && !(due && m.tables_fit()) ==> a == m
            &&& m.flow.pacer is None ==> m.tables_fit()
        }),
{
}

/// A new multiplexer repeats tables every fifth of a second and waits for its header.
pub proof fn lemma_new_multiplexer(plan: PlanView, pkt: PacketView)
    ensures
        ({
            let m = MuxView::fresh(plan);
            &&& m.psi_repetition matches Some(i) && 5 * i == 90_000
            &&& m.last_psi is None
            &&& !m.header_written
            &&& m.flow.out.len() == 0
            &&& m.flow.pacer is None
            &&& m.packet_written(pkt).error == Some(MuxError::HeaderNotWritten)
            &&& m.packet_written(pkt).mux == m
        }),
{
}

/// The multiplexer of one program: program 1 with its map on PID 256 in transport stream
/// 1, with every stream in the order given, and nothing else.
pub proof fn lemma_one_program(config: MpegTsMuxConfig, streams: Seq<MuxStream>, i: int)
    requires
        is_single_program(config, streams),
        0 <= i < streams.len(),
    ensures
        config.transport_stream_id == 1,
        config.original_network_id == 1,
        config.network is None,
        config.programs@.len() == 1,
        config.programs@[0].program_number == 1,
        config.programs@[0].pmt_pid == 256,
        config.programs@[0].pcr_pid is None,
        config.programs@[0].stream_indices@.len() == streams.len(),
        config.programs@[0].stream_indices@[i] == streams[i].index,
        config.programs@[0].service is None,
        config.programs@[0].events@.len() == 0,
{
}

/// Off the byte clock the clock reference of a frame is at most 40 ms after the one before
/// it: longer gaps are filled up in steps of 30 ms.
pub proof fn lemma_gaps_filled(f: FlowView, plan: PlanView, p: int, target: int)
    requires
        0 <= p < f.programs.len(),
        f.programs[p].last_pcr is Some,
        target <= i64::MAX,
    ensures
        ({
            let last = f.programs[p].last_pcr->0;
            let g = f.chain_put(plan, p, target);
            &&& g.programs[p].last_pcr is Some
            &&& 25 * (target - g.programs[p].last_pcr->0) <= 90_000
            &&& 25 * (target - last) <= 90_000 ==> g == f
            &&& 25 * (target - last) > 90_000 ==> {
                let next = (last + 2_700) as i64;
                let base = ring(if next > 0 { next } else { 0 });
                g == f.pcr_put(plan, p, base, 0).with_last_pcr(p, next).chain_put(plan, p, target)
            }
        }),
{
    lemma_pcr_gap_filled(f, plan, p, target);
}

/// On the byte clock a program owes a clock reference once 40 ms of bytes lie behind its
/// last one: `bits` bits at `rate` take 40 ms where 25 times as many are `rate`.
pub proof fn lemma_reference_owed(f: FlowView, p: int, b: int)
    requires
        f.pacer is Some,
        f.pacer->0.rate >= 1,
        0 <= p < f.pacer->0.last_pcr.len(),
        f.pacer->0.last_pcr[p] == Some(b),
        b <= f.pos(),
    ensures
        f.pcr_due(p) <==> 25 * (8 * (f.pos() - b)) >= f.pacer->0.rate,
{
    let rate = f.pacer->0.rate;
    let d = f.pos() - b;
    let x = d * 216_000_000;
    vstd::arithmetic::div_mod::lemma_fundamental_div_mod(x, rate);
    vstd::arithmetic::div_mod::lemma_mod_bound(x, rate);
    let q = x / rate;
    assert(f.pcr_due(p) == (q >= 1_080_000));
    if q >= 1_080_000 {
        assert(x >= 1_080_000 * rate) by (nonlinear_arith)
            requires
                x == rate * q + x % rate,
                0 <= x % rate,
                q >= 1_080_000,
                rate >= 1,
        ;
        assert(200 * d >= rate);
    } else {
        assert(x < 1_080_000 * rate) by (nonlinear_arith)
            requires
                x == rate * q + x % rate,
                x % rate < rate,
                q < 1_080_000,
                rate >= 1,
        ;
        assert(200 * d < rate);
    }
}

/// Levels count `rate` for a byte of a transport buffer, so that in the time of a byte of
/// the stream `rx` of it drain; the buffer of a stream but video drains at 2 Mbit/s.
pub proof fn lemma_transport_buffer_drains(p: PacerView, key: u16, rx: int, a: int, b: int)
    requires
        p.tb.contains_key(key),
        a <= b,
        rx >= 0,
        p.tb_level(key, rx, b) > 0,
    ensures
        p.tb_level(key, rx, a) - p.tb_level(key, rx, b) == rx * (b - a),
{
    let l = p.tb[key];
    assert(rx * (b - l.1) - rx * (a - l.1) == rx * (b - a)) by (nonlinear_arith);
    assert(rx * (b - a) >= 0) by (nonlinear_arith)
        requires
            rx >= 0,
            b >= a,
    ;
}

/// Which packets wait for which buffer: those of video for none, those of another stream
/// for its own, at 2 Mbit/s; and the buffer then has room for the packet in its 512 bytes.
pub proof fn lemma_packets_wait(f: FlowView, plan: PlanView, t: int)
    requires
        f.pacer is Some ==> f.pacer->0.rate >= 1,
    ensures
        ({
            let track = plan.tracks[t];
            let g = f.paced_for(plan, t);
            &&& track.is_video ==> g == f
            &&& !track.is_video ==> g == f.tb_paced(track.pid, 2_000_000)
            &&& !track.is_video && f.pacer is Some ==> {
                let level = g.pacer->0.tb[track.pid];
                &&& g.pacer->0.tb.contains_key(track.pid)
                &&& 188 * f.pacer->0.rate <= level.0 <= 512 * f.pacer->0.rate
                &&& level.1 == g.pos()
            }
        }),
{
    if !plan.tracks[t].is_video && f.pacer is Some {
        lemma_room_made(f, plan.tracks[t].pid, 2_000_000);
    }
}

/// Null packets go out until the buffer has room for a packet.
pub proof fn lemma_room_made(f: FlowView, key: u16, rx: int)
    requires
        f.pacer is Some,
        f.pacer->0.rate >= 1,
        rx > 0,
    ensures
        ({
            let g = f.tb_paced(key, rx);
            let level = g.pacer->0.tb[key];
            &&& g.pacer is Some
            &&& g.pacer->0.tb.contains_key(key)
            &&& 188 * f.pacer->0.rate <= level.0 <= 512 * f.pacer->0.rate
            &&& level.1 == g.pos()
        }),
    decreases f.pacer->0.tb_level(key, rx, f.pos()),
{
    let p = f.pacer->0;
    let level = p.tb_level(key, rx, f.pos());
    if !(level + 188 * p.rate <= 512 * p.rate || level <= 0) {
        lemma_null_drains_tb(f, key, rx);
        lemma_room_made(
            f.with_tb(key, level).put(null_packet()),
            key,
            rx,
        );
    }
}

/// The system buffer holds 1536 bytes and drains at 80 kbit/s or 1/500 of the rate of the
/// stream, whichever is more; a packet brings 188. Levels count `500 * rate` for a byte.
pub proof fn lemma_system_buffer(p: PacerView)
    requires
        p.rate >= 1,
    ensures
        BSYS_SIZE_SCALED == 1536 * 500,
        BSYS_PACKET_SCALED == 188 * 500,
        p.bsys_drain() >= 500 * 80_000,
        p.bsys_drain() >= p.rate,
        p.bsys_drain() == 500 * 80_000 || p.bsys_drain() == p.rate,
{
}

/// A frame takes its bytes, and 256 more, to be written: as many ticks as their bits have
/// at the rate.
pub proof fn lemma_time_on_the_wire(f: FlowView, n: int)
    requires
        f.pacer is Some,
        f.pacer->0.rate >= 1,
        n >= 0,
    ensures
        ({
            let rate = f.pacer->0.rate;
            let bits = 8 * (n + 256);
            f.wire_time(n) * rate <= bits * 27_000_000 < (f.wire_time(n) + 1) * rate
        }),
{
    let rate = f.pacer->0.rate;
    let x = (n + 256) * 216_000_000;
    vstd::arithmetic::div_mod::lemma_fundamental_div_mod(x, rate);
    vstd::arithmetic::div_mod::lemma_mod_bound(x, rate);
    let q = x / rate;
    assert(q * rate <= x < (q + 1) * rate) by (nonlinear_arith)
        requires
            x == rate * q + x % rate,
            0 <= x % rate < rate,
    ;
}

/// Which splicing points are refused: a type of more than four bits, a time of more than
/// 33, and a type but 0 on a stream that is no video. A countdown after it has at most 127
/// packets.
pub proof fn lemma_splices_refused(spec: SpliceSpec, is_video: bool)
    ensures
        match spec.seamless {
            None => splice_error(spec, is_video) is None,
            Some(s) => {
                &&& s.splice_type > 15 ==> splice_error(spec, is_video) == Some(
                    MuxError::SpliceTypeTooWide,
                )
                &&& s.splice_type <= 15 && s.dts_next_au >= 0x2_0000_0000 ==> splice_error(
                    spec,
                    is_video,
                ) == Some(MuxError::DtsNextAuTooWide)
                &&& s.splice_type <= 15 && s.dts_next_au < 0x2_0000_0000 ==> splice_error(
                    spec,
                    is_video,
                ) == if !is_video && s.splice_type != 0 {
                    Some(MuxError::SpliceTypeNotVideo)
                } else {
                    None
                }
            },
        },
{
}

/// A splicing point that is asked for waits for the next frame of its stream, and of no
/// other; its countdown goes on for as many packets as asked, at most 127.
pub proof fn lemma_splice_waits(m: MuxView, index: u32, spec: SpliceSpec, i: int)
    requires
        m.flow.tracks.len() == m.plan.tracks.len(),
        0 <= i < m.plan.tracks.len(),
    ensures
        ({
            let o = m.splice_armed(index, spec);
            let x = o.mux.flow.tracks[i];
            &&& track_for_index(m.plan, index, 0) is None ==> o.mux == m && o.error == Some(
                MuxError::NoSuchStream { stream_index: index },
            )
            &&& o.error is Some ==> o.mux == m
            &&& o.error is None && track_for_index(m.plan, index, 0) != Some(i) ==> x
                == m.flow.tracks[i]
            &&& o.error is None && track_for_index(m.plan, index, 0) == Some(i) ==> {
                &&& x.cc == m.flow.tracks[i].cc
                &&& x.splice matches Some(s) && {
                    &&& s.seamless == spec.seamless
                    &&& spec.post_splice_packets <= 127 ==> s.post_splice_packets
                        == spec.post_splice_packets
                    &&& spec.post_splice_packets > 127 ==> s.post_splice_packets == 127
                }
            }
            &&& o.mux.flow.out == m.flow.out
        }),
{
    lemma_stream_found(m.plan, index, 0);
}

/// The stream of an index is the first track that has it.
pub proof fn lemma_stream_found(plan: PlanView, index: u32, from: int)
    requires
        0 <= from <= plan.tracks.len(),
    ensures
        match track_for_index(plan, index, from) {
            Some(t) => from <= t < plan.tracks.len() && plan.tracks[t].stream_index == index
                && forall|i: int|
                from <= i < t ==> (#[trigger] plan.tracks[i]).stream_index != index,
            None => forall|i: int|
                from <= i < plan.tracks.len() ==> (#[trigger] plan.tracks[i]).stream_index != index,
        },
    decreases plan.tracks.len() - from,
{
    if from < plan.tracks.len() && plan.tracks[from].stream_index != index {
        lemma_stream_found(plan, index, from + 1);
    }
}

/// The program of a number is the first that has it.
pub proof fn lemma_program_found(plan: PlanView, number: u16, from: int)
    requires
        0 <= from <= plan.programs.len(),
    ensures
        match program_for(plan, number, from) {
            Some(p) => from <= p < plan.programs.len() && plan.programs[p].number == number
                && forall|i: int| from <= i < p ==> (#[trigger] plan.programs[i]).number != number,
            None => forall|i: int|
                from <= i < plan.programs.len() ==> (#[trigger] plan.programs[i]).number != number,
        },
    decreases plan.programs.len() - from,
{
    if from < plan.programs.len() && plan.programs[from].number != number {
        lemma_program_found(plan, number, from + 1);
    }
}

/// A new time base of a program is to be signalled with its next clock reference, whatever
/// came before; other programs go on. Under pacing the byte clock starts anew.
pub proof fn lemma_new_time_base(m: MuxView, p: int, q: int)
    requires
        0 <= p < m.flow.programs.len(),
        0 <= q < m.flow.programs.len(),
    ensures
        ({
            let g = m.base_broken(p).flow;
            &&& g.programs[p].discontinuity
            &&& g.programs[p].last_pcr is None
            &&& q != p ==> g.programs[q] == m.flow.programs[q]
            &&& !g.anchored()
            &&& g.out == m.flow.out
            &&& g.tracks == m.flow.tracks
        }),
{
}

/// A frame on the wire: its data, whole and in order, in PES packets of its stream id, the
/// first with its PTS in 33 bits, and its DTS where that differs; video in one packet,
/// anything else in as many as needed. Only the first is marked as an access point.
pub proof fn lemma_frame_on_the_wire(
    stream_id: u8,
    pts: Option<i64>,
    dts: Option<i64>,
    data: Seq<u8>,
    random_access: bool,
    k: int,
)
    requires
        is_mux_stream_id(stream_id),
        frame_error(stream_id, pts, dts, data.len() as int) is None,
        pts matches Some(x) ==> x >= 0,
        dts matches Some(x) ==> x >= 0,
        0 <= k < frame_units(stream_id, pts, dts, data, random_access).len(),
    ensures
        ({
            let us = frame_units(stream_id, pts, dts, data, random_access);
            let u = us[k];
            &&& payload_of(us) == data
            &&& u.stream_id == stream_id
            &&& k > 0 ==> u.pts_90k is None && u.dts_90k is None && !u.random_access
            &&& us[0].random_access == random_access
            &&& us[0].pts_90k is Some == pts is Some
            &&& pts matches Some(x) ==> us[0].pts_90k->0 == x % 0x2_0000_0000
            &&& dts matches Some(y) ==> (pts matches Some(x) && (if x % 0x2_0000_0000 == y
                % 0x2_0000_0000 {
                us[0].dts_90k is None
            } else {
                us[0].dts_90k is Some && us[0].dts_90k->0 == y % 0x2_0000_0000
            }))
            &&& dts is None ==> us[0].dts_90k is None
            &&& 0xE0 <= stream_id <= 0xEF ==> us.len() == 1
        }),
{
    let us = frame_units(stream_id, pts, dts, data, random_access);
    let h = first_header(stream_id, pts, dts);
    let n = first_len(h, data.len() as int);
    lemma_frame_units(stream_id, pts, dts, data, random_access);
    if pts is Some {
        lemma_ring_is_modular(pts->0);
    }
    if dts is Some {
        lemma_ring_is_modular(dts->0);
    }
    if k > 0 {
        assert(us[k] == next_units(stream_id, data.skip(n))[k - 1]);
        lemma_next_unit_plain(stream_id, data.skip(n), k - 1);
    }
}

proof fn lemma_next_unit_plain(stream_id: u8, data: Seq<u8>, k: int)
    requires
        0 <= k < next_units(stream_id, data).len(),
    ensures
        ({
            let u = next_units(stream_id, data)[k];
            &&& u.stream_id == stream_id
            &&& u.pts_90k is None
            &&& u.dts_90k is None
            &&& !u.random_access
        }),
    decreases data.len(),
{
    if data.len() > 0xFFFC && k > 0 {
        lemma_next_unit_plain(stream_id, data.skip(0xFFFC), k - 1);
        assert(next_units(stream_id, data)[k] == next_units(stream_id, data.skip(0xFFFC))[k - 1]);
    }
}

/// What is held of a frame is what its fields say.
pub proof fn lemma_frame_view(p: MuxPacket)
    ensures
        p@.stream_index == p.stream_index,
        p@.pts == p.pts,
        p@.dts == p.dts,
        p@.keyframe == p.keyframe,
        p@.data == p.data@,
{
}

/// The first PES packet of a frame but video is as full as 65535 bytes allow, with three of
/// header and five for each timestamp; those after it hold 65532 bytes, but for the last.
pub proof fn lemma_packets_full(
    stream_id: u8,
    pts: Option<i64>,
    dts: Option<i64>,
    data: Seq<u8>,
    random_access: bool,
)
    requires
        is_mux_stream_id(stream_id),
    ensures
        ({
            let us = frame_units(stream_id, pts, dts, data, random_access);
            let u = us[0];
            let room = 65532 - (if u.pts_90k is Some { 5int } else { 0 }) - (if u.pts_90k is Some
                && u.dts_90k is Some {
                5int
            } else {
                0
            });
            &&& !(0xE0 <= stream_id <= 0xEF) && data.len() > room ==> u.payload.len() == room
            &&& (0xE0 <= stream_id <= 0xEF) || data.len() <= room ==> u.payload == data
                && us.len() == 1
        }),
{
    let h = first_header(stream_id, pts, dts);
    let n = first_len(h, data.len() as int);
    if n == data.len() {
        assert(data.take(n) =~= data);
        assert(data.skip(n).len() == 0);
    }
}

/// Tables may come again under pacing if the system buffer, as it is now, has room for a
/// packet of the PAT and one of each map.
pub proof fn lemma_room_for_tables(m: MuxView)
    requires
        m.flow.pacer is Some,
        m.flow.pacer->0.rate >= 1,
    ensures
        m.tables_fit() <==> m.flow.pacer->0.bsys_level(m.flow.pos()) + 188 * 500
            * m.flow.pacer->0.rate * (1 + m.plan.programs.len()) <= 1536 * 500
            * m.flow.pacer->0.rate,
{
    let r = m.flow.pacer->0.rate;
    let k = 1 + m.plan.programs.len() as int;
    assert(k * 94_000 * r == 94_000 * r * k) by (nonlinear_arith);
}

/// Null packets go out until the system buffer has room for a packet.
pub proof fn lemma_system_room_made(f: FlowView)
    requires
        f.pacer is Some,
        f.pacer->0.rate >= 1,
    ensures
        ({
            let g = f.bsys_paced();
            let level = g.pacer->0.bsys;
            &&& g.pacer is Some
            &&& 188 * 500 * f.pacer->0.rate <= level.0 <= 1536 * 500 * f.pacer->0.rate
            &&& level.1 == g.pos()
        }),
    decreases f.pacer->0.bsys_level(f.pos()),
{
    let p = f.pacer->0;
    let level = p.bsys_level(f.pos());
    if !(level + 94_000 * p.rate <= 768_000 * p.rate || level <= 0) {
        lemma_null_drains_bsys(f);
        lemma_system_room_made(f.with_bsys(level).put(null_packet()));
    }
}

/// The clock reference that goes along with a frame is in its first packet, and signals a
/// new time base if one is to be; with the byte clock running it is that clock's. The mark
/// of an access point goes with it.
pub proof fn lemma_reference_in_first_packet(
    f: FlowView,
    plan: PlanView,
    t: int,
    riders: Riders,
    start: bool,
    run: Option<int>,
    rest: Seq<u8>,
) -> (p: TsPacketView)
    requires
        0 <= t < plan.tracks.len(),
        f.tracks.len() == plan.tracks.len(),
        f.tracks[t].cc < 16,
        riders.wf(),
        plan.tracks[t].pid < 0x1FFF,
        rest.len() > 0,
    ensures
        ({
            let a = f.paced_for(plan, t);
            let g = stepped(f, plan, t, riders, start, run, rest);
            let q = plan.tracks[t].program as int;
            let has = p.adaptation_field is Some;
            let af = p.adaptation_field->0;
            &&& packets_on(g.out, plan.tracks[t].pid) == packets_on(
                f.out,
                plan.tracks[t].pid,
            ).push(p)
            &&& start && riders.pcr is Some ==> has && af.pcr_base == Some(
                if a.anchored() { a.pcr_now().0 } else { (riders.pcr->0).0 },
            ) && af.discontinuity_indicator == a.programs[q].discontinuity
            &&& !start || riders.pcr is None ==> (has ==> af.pcr_base is None
                && !af.discontinuity_indicator)
            &&& (has && af.random_access_indicator) == (start && riders.random_access)
            &&& p.payload_unit_start == start
            &&& p.continuity_counter == f.tracks[t].cc
        }),
{
    lemma_step_read_back(f, plan, t, riders, start, run, rest)
}

/// A null packet is four bytes of header, with PID 8191 and nothing but payload, and ones.
pub proof fn lemma_null_bytes(i: int)
    requires
        4 <= i < 188,
    ensures
        null_packet().len() == 188,
        null_packet()[0] == 0x47,
        null_packet()[i] == 255,
        parse_packet_spec(null_packet()) matches Ok(p) && p.pid == 8191 && p.payload.len() == 184,
{
    lemma_null_read_back();
    let b = null_packet();
    lemma_header_bits(8191, false, 1, 0);
    lemma_byte_bits(b[3]);
}

/// The packets counted are enough, and one less is not: `here` bytes go into the first, and
/// `next` into each other.
pub proof fn lemma_count_is_least(left: int, here: int, next: int)
    requires
        left > 0,
        here >= 0,
        next > 0,
    ensures
        needed(left, here, next) >= 1,
        here + (needed(left, here, next) - 1) * next >= left,
        needed(left, here, next) > 1 ==> here + (needed(left, here, next) - 2) * next < left,
{
    if left > here {
        let x = left - here + next - 1;
        let q = x / next;
        vstd::arithmetic::div_mod::lemma_fundamental_div_mod(x, next);
        vstd::arithmetic::div_mod::lemma_mod_bound(x, next);
        assert(q * next == next * q && (q - 1) * next == next * q - next) by (nonlinear_arith);
        assert(q >= 1) by (nonlinear_arith)
            requires
                x == next * q + x % next,
                x >= next,
                x % next < next,
                next > 0,
        ;
    }
}

/// A language tag gives its first three bytes, and spaces where it has less.
pub proof fn lemma_language_bytes(tag: Seq<u8>, i: int)
    requires
        0 <= i < 3,
    ensures
        language_code(tag).len() == 3,
        i < tag.len() ==> language_code(tag)[i] == tag[i],
        i >= tag.len() ==> language_code(tag)[i] == 0x20,
{
}

/// The track of a program's clock is the first on its PCR PID.
pub proof fn lemma_track_of_clock(tracks: Seq<TrackPlan>, pid: u16, from: int)
    requires
        0 <= from <= tracks.len() <= usize::MAX,
    ensures
        match track_on(tracks, pid, from) {
            Some(t) => from <= t < tracks.len() && tracks[t as int].pid == pid && forall|i: int|
                from <= i < t ==> (#[trigger] tracks[i]).pid != pid,
            None => forall|i: int| from <= i < tracks.len() ==> (#[trigger] tracks[i]).pid != pid,
        },
    decreases tracks.len() - from,
{
    if from < tracks.len() && tracks[from].pid != pid {
        lemma_track_of_clock(tracks, pid, from + 1);
    }
}

/// The clock of a program is looked for on its own PCR PID.
pub proof fn lemma_clock_on_pcr_pid(d: DraftView, p: int)
    requires
        0 <= p < d.programs.len(),
    ensures
        clocked(d).len() == d.programs.len(),
        clocked(d)[p].pcr_track == track_on(d.tracks, d.programs[p].pcr_pid, 0),
        clocked(d)[p].number == d.programs[p].number,
        clocked(d)[p].pmt_pid == d.programs[p].pmt_pid,
        clocked(d)[p].pcr_pid == d.programs[p].pcr_pid,
{
}

} // verus!
