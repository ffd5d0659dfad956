//! What a reader of the stream finds of what was written.
use vstd::prelude::*;

use crate::clock::Continuity;
use crate::muxer::flow::{lemma_null_drains_bsys, lemma_null_drains_tb, FlowView, PlanView};
use crate::muxer::frame::Riders;
use crate::muxer::packets::{
    fill, field_for, lemma_field_bytes, lemma_pes_packet_len, null_packet, pcr_field, pcr_packet,
    pes_packet, pes_take, psi_packet, psi_take, ts_header, Field,
};
use crate::packet::parse::{parse_packet_spec, TsPacketView};
use crate::packet::round_trip::{field_agrees, lemma_packet_carries_adaptation_field};
use crate::pes::reassemble::{carries_rai, joined_payloads};
use crate::validate::discovery::NULL_PID;

verus! {

/// The packets of PID `pid` in a stream of 188-byte packets, counted from its
/// end.
#[verifier::opaque]
pub open spec fn packets_on(out: Seq<u8>, pid: u16) -> Seq<TsPacketView>
    decreases out.len(),
{
    if out.len() < 188 {
        Seq::empty()
    } else {
        let n = out.len() - 188;
        let before = packets_on(out.take(n), pid);
        match parse_packet_spec(out.skip(n)) {
            Ok(p) => if p.pid == pid {
                before.push(p)
            } else {
                before
            },
            Err(_) => before,
        }
    }
}

/// What one more packet adds.
pub proof fn lemma_packets_on_put(out: Seq<u8>, packet: Seq<u8>, pid: u16)
    requires
        packet.len() == 188,
    ensures
        packets_on(out + packet, pid) == (match parse_packet_spec(packet) {
            Ok(p) => if p.pid == pid {
                packets_on(out, pid).push(p)
            } else {
                packets_on(out, pid)
            },
            Err(_) => packets_on(out, pid),
        }),
{
    reveal_with_fuel(packets_on, 2);
    let all = out + packet;
    assert(all.take(all.len() - 188) =~= out);
    assert(all.skip(all.len() - 188) =~= packet);
}

/// The fields of a packet header are read back.
pub(crate) proof fn lemma_header_bits(pid: u16, start: bool, afc: u8, cc: u8)
    by (bit_vector)
    requires
        pid < 0x2000,
        cc < 16,
        1 <= afc <= 3,
    ensures
        ({
            let b1 = (if start { 0x40u8 } else { 0u8 }) | (((pid >> 8) & 0x1F) as u8);
            let b2 = (pid & 0xFF) as u8;
            let b3 = (afc << 4) | (cc & 0x0F);
            &&& (((b1 & 0x1F) as u16) << 8) | (b2 as u16) == pid
            &&& (b1 & 0x40 != 0) == start
            &&& b1 & 0x80 == 0
            &&& b1 & 0x20 == 0
            &&& (b3 >> 6) & 3 == 0
            &&& b3 & 0x0F == cc
            &&& (((b3 >> 4) & 3) & 2 != 0) == (afc != 1)
            &&& (((b3 >> 4) & 3) & 1 != 0) == (afc != 2)
        }),
{
}

/// A packet is well formed, on `pid`, with counter `cc`.
pub open spec fn plain_packet(p: TsPacketView, pid: u16, start: bool, cc: u8) -> bool {
    &&& p.pid == pid
    &&& p.payload_unit_start == start
    &&& !p.transport_error
    &&& !p.transport_priority
    &&& p.transport_scrambling_control == 0
    &&& p.continuity_counter == cc
}

/// The adaptation field of `p` says what `f` does.
pub open spec fn carries_field(p: TsPacketView, f: Field) -> bool {
    match p.adaptation_field {
        Some(af) => field_agrees(af, f.as_spec()),
        None => f.is_bare(),
    }
}

/// A packet with part of a PES packet is read back: its PID, its counter, its
/// adaptation field, and its share of the PES packet.
pub proof fn lemma_pes_packet_read_back(pid: u16, cc: u8, start: bool, f: Field, rest: Seq<u8>)
    requires
        pid < 0x2000,
        cc < 16,
        f.wf(),
        rest.len() > 0,
    ensures
        parse_packet_spec(pes_packet(pid, cc, start, f, rest)) is Ok,
        ({
            let p = parse_packet_spec(pes_packet(pid, cc, start, f, rest))->Ok_0;
            &&& plain_packet(p, pid, start, cc)
            &&& carries_field(p, f)
            &&& p.payload == rest.take(pes_take(f, rest.len() as int))
        }),
{
    let b = pes_packet(pid, cc, start, f, rest);
    let left = rest.len() as int;
    let afc: u8 = if f.is_bare() && left >= 184 { 1 } else { 3 };
    lemma_header_bits(pid, start, afc, cc);
    lemma_pes_packet_len(pid, cc, start, f, rest);
    let head = ts_header(pid, start, afc, cc);
    assert(b.take(4) =~= head);
    assert(b[0] == head[0] && b[1] == head[1] && b[2] == head[2] && b[3] == head[3]);
    if afc == 1 {
        assert(b.subrange(4, 188) =~= rest.take(184));
    } else {
        let want: int = if left < 184 - f.size() { 184 - left } else { 0 };
        lemma_field_bytes(f, 0);
        lemma_field_bytes(f, want);
        let raw = f.bytes(want);
        assert(field_for(f, left) == raw);
        assert(b.subrange(4, 4 + raw.len() as int) =~= raw);
        lemma_packet_carries_adaptation_field(b, f.as_spec(), Some(want as usize));
        assert(b.subrange(4 + raw.len() as int, 188) =~= rest.take(pes_take(f, left)));
    }
}

/// A packet with nothing but a clock reference is read back.
pub proof fn lemma_pcr_packet_read_back(pid: u16, cc: u8, discontinuity: bool, base: u64, ext: u16)
    requires
        pid < 0x2000,
        cc < 16,
        base <= 0x1_FFFF_FFFF,
        ext <= 0x1FF,
    ensures
        pcr_packet(pid, cc, discontinuity, base, ext).len() == 188,
        parse_packet_spec(pcr_packet(pid, cc, discontinuity, base, ext)) is Ok,
        ({
            let p = parse_packet_spec(pcr_packet(pid, cc, discontinuity, base, ext))->Ok_0;
            &&& plain_packet(p, pid, false, cc)
            &&& carries_field(p, pcr_field(discontinuity, base, ext))
            &&& p.payload.len() == 0
        }),
{
    let b = pcr_packet(pid, cc, discontinuity, base, ext);
    let f = pcr_field(discontinuity, base, ext);
    lemma_header_bits(pid, false, 2, cc);
    lemma_field_bytes(f, 184);
    let head = ts_header(pid, false, 2, cc);
    assert(b.take(4) =~= head);
    assert(b[0] == head[0] && b[1] == head[1] && b[2] == head[2] && b[3] == head[3]);
    let raw = f.bytes(184);
    assert(b.subrange(4, 4 + raw.len() as int) =~= raw);
    lemma_packet_carries_adaptation_field(b, f.as_spec(), Some(184usize));
}

/// A packet with part of a section is read back.
pub proof fn lemma_psi_packet_read_back(pid: u16, cc: u8, start: bool, rest: Seq<u8>)
    requires
        pid < 0x2000,
        cc < 16,
    ensures
        psi_packet(pid, cc, start, rest).len() == 188,
        parse_packet_spec(psi_packet(pid, cc, start, rest)) is Ok,
        ({
            let p = parse_packet_spec(psi_packet(pid, cc, start, rest))->Ok_0;
            let n = psi_take(start, rest.len() as int);
            let lead = if start { seq![0u8] } else { Seq::empty() };
            &&& plain_packet(p, pid, start, cc)
            &&& p.adaptation_field is None
            &&& p.payload == lead + rest.take(n) + fill((184 - lead.len() - n) as nat)
        }),
{
    let b = psi_packet(pid, cc, start, rest);
    let n = psi_take(start, rest.len() as int);
    let lead: Seq<u8> = if start { seq![0u8] } else { Seq::empty() };
    lemma_header_bits(pid, start, 1, cc);
    let head = ts_header(pid, start, 1, cc);
    assert(b.take(4) =~= head);
    assert(b[0] == head[0] && b[1] == head[1] && b[2] == head[2] && b[3] == head[3]);
    assert(b.subrange(4, 188) =~= lead + rest.take(n) + fill((184 - lead.len() - n) as nat));
}

/// A null packet is read back.
pub proof fn lemma_null_read_back()
    ensures
        null_packet().len() == 188,
        parse_packet_spec(null_packet()) is Ok,
        parse_packet_spec(null_packet())->Ok_0.pid == NULL_PID,
        parse_packet_spec(null_packet())->Ok_0.adaptation_field is None,
{
    let b = null_packet();
    lemma_header_bits(NULL_PID, false, 1, 0);
    let head = ts_header(NULL_PID, false, 1, 0);
    assert(b.take(4) =~= head);
    assert(b[0] == head[0] && b[1] == head[1] && b[2] == head[2] && b[3] == head[3]);
}

/// Null packets are on no PID but their own.
pub(crate) proof fn lemma_null_elsewhere(out: Seq<u8>, pid: u16)
    requires
        pid != NULL_PID,
    ensures
        packets_on(out + null_packet(), pid) == packets_on(out, pid),
{
    lemma_null_read_back();
    lemma_packets_on_put(out, null_packet(), pid);
}

impl FlowView {
    /// As `other` but for padding and buffer levels.
    pub open spec fn pads(self, other: FlowView, pid: u16) -> bool {
        &&& packets_on(self.out, pid) == packets_on(other.out, pid)
        &&& self.tracks == other.tracks
        &&& self.programs == other.programs
        &&& self.table_cc == other.table_cc
        &&& self.pmt_cc == other.pmt_cc
        &&& self.anchored() == other.anchored()
    }
}

/// Waiting for room in a transport buffer only pads.
pub proof fn lemma_tb_paced_pads(f: FlowView, key: u16, rx: int, pid: u16)
    requires
        pid != NULL_PID,
    ensures
        f.tb_paced(key, rx).pads(f, pid),
    decreases f.pacer->0.tb_level(key, rx, f.pos()),
{
    if f.pacer is Some && rx > 0 {
        let p = f.pacer->0;
        let level = p.tb_level(key, rx, f.pos());
        if !(level + 188 * p.rate <= crate::muxer::flow::TB_SIZE * p.rate || level <= 0) {
            lemma_null_drains_tb(f, key, rx);
            let g = f.with_tb(key, level).put(null_packet());
            lemma_tb_paced_pads(g, key, rx, pid);
            lemma_null_elsewhere(f.out, pid);
        }
    }
}

/// Waiting for room in the system buffer only pads.
pub proof fn lemma_bsys_paced_pads(f: FlowView, pid: u16)
    requires
        pid != NULL_PID,
    ensures
        f.bsys_paced().pads(f, pid),
    decreases f.pacer->0.bsys_level(f.pos()),
{
    if f.pacer is Some {
        let p = f.pacer->0;
        let level = p.bsys_level(f.pos());
        if !(level + crate::muxer::flow::BSYS_PACKET_SCALED * p.rate
            <= crate::muxer::flow::BSYS_SIZE_SCALED * p.rate || level <= 0) {
            lemma_null_drains_bsys(f);
            let g = f.with_bsys(level).put(null_packet());
            lemma_bsys_paced_pads(g, pid);
            lemma_null_elsewhere(f.out, pid);
        }
    }
}

/// `ps` are the packets that `data` is cut into: on PID `pid`, with counters
/// from `cc` on, only the first one a start, each with some of the data.
pub open spec fn is_cut(
    ps: Seq<TsPacketView>,
    pid: u16,
    cc: u8,
    start: bool,
    data: Seq<u8>,
) -> bool {
    &&& joined_payloads(ps) == data
    &&& forall|i: int|
        0 <= i < ps.len() ==> {
            &&& plain_packet(#[trigger] ps[i], pid, start && i == 0, ((cc + i) % 16) as u8)
            &&& ps[i].payload.len() > 0
        }
}

/// Only the first packet of `ps` carries what goes along with a PES packet, and
/// it carries a clock reference where one is asked for.
pub open spec fn carries_riders(ps: Seq<TsPacketView>, start: bool, riders: Riders) -> bool {
    forall|i: int| 0 <= i < ps.len() ==> packet_carries(#[trigger] ps[i], start && i == 0, riders)
}

proof fn lemma_joined_first(first: TsPacketView, ps: Seq<TsPacketView>)
    ensures
        joined_payloads(seq![first] + ps) == first.payload + joined_payloads(ps),
    decreases ps.len(),
{
    let all = seq![first] + ps;
    if ps.len() == 0 {
        reveal_with_fuel(joined_payloads, 2);
        assert(all.drop_last() =~= Seq::empty());
        assert(all.last() == first);
        assert(joined_payloads(all) =~= first.payload + joined_payloads(ps));
    } else {
        lemma_joined_first(first, ps.drop_last());
        assert(all.drop_last() =~= seq![first] + ps.drop_last());
        assert(all.last() == ps.last());
        assert(joined_payloads(all) =~= first.payload + joined_payloads(ps));
    }
}

/// A clock reference taken from the byte clock fits its fields.
pub proof fn lemma_pcr_now_fits(f: FlowView)
    ensures
        f.pcr_now().0 <= 0x1_FFFF_FFFF,
        f.pcr_now().1 <= 0x1FF,
{
    let x = f.pacer->0.time_at(f.pos() + 10) % crate::clock::PCR_MODULUS_27MHZ as int;
    assert(0 <= x < crate::clock::PCR_MODULUS_27MHZ);
    assert(0 <= x / 300 < 0x2_0000_0000);
}

/// The field of every packet fits.
pub proof fn lemma_packet_field_fits(
    f: FlowView,
    plan: PlanView,
    t: int,
    riders: Riders,
    start: bool,
    run: Option<int>,
    left: int,
)
    requires
        riders.wf(),
    ensures
        f.packet_field(plan, t, riders, start, run, left).wf(),
        f.packet_field(plan, t, riders, start, run, left).random_access == (start
            && riders.random_access),
        f.packet_field(plan, t, riders, start, run, left).pcr is Some == (start && riders.pcr
            is Some),
{
    lemma_pcr_now_fits(f);
}

/// The packet says what goes along with a PES packet: a first packet does, any
/// other does not.
pub open spec fn packet_carries(p: TsPacketView, first: bool, riders: Riders) -> bool {
    &&& carries_rai(p) == (first && riders.random_access)
    &&& (p.adaptation_field is Some && p.adaptation_field->0.pcr_base is Some) == (first
        && riders.pcr is Some)
}

/// The state after the next packet of a PES packet.
pub open spec fn stepped(
    f: FlowView,
    plan: PlanView,
    t: int,
    riders: Riders,
    start: bool,
    run: Option<int>,
    rest: Seq<u8>,
) -> FlowView {
    f.paced_for(plan, t).packet_put(plan, t, riders, start, run, rest)
}

/// One packet of a PES packet is read back.
pub(crate) proof fn lemma_step_read_back(
    f: FlowView,
    plan: PlanView,
    t: int,
    riders: Riders,
    start: bool,
    run: Option<int>,
    rest: Seq<u8>,
) -> (first: TsPacketView)
    requires
        0 <= t < plan.tracks.len(),
        f.tracks.len() == plan.tracks.len(),
        f.tracks[t].cc < 16,
        riders.wf(),
        plan.tracks[t].pid < 0x1FFF,
        rest.len() > 0,
    ensures
        ({
            let b = stepped(f, plan, t, riders, start, run, rest);
            let pid = plan.tracks[t].pid;
            let n = first.payload.len() as int;
            let a = f.paced_for(plan, t);
            &&& packets_on(b.out, pid) == packets_on(f.out, pid).push(first)
            &&& forall|q: u16|
                q != pid && q != NULL_PID ==> #[trigger] packets_on(b.out, q) == packets_on(
                    f.out,
                    q,
                )
            &&& plain_packet(first, pid, start, f.tracks[t].cc)
            &&& packet_carries(first, start, riders)
            &&& carries_field(
                first,
                a.packet_field(plan, t, riders, start, run, rest.len() as int),
            )
            &&& n == pes_take(
                a.packet_field(plan, t, riders, start, run, rest.len() as int),
                rest.len() as int,
            )
            &&& a.pads(f, pid)
            &&& 0 < n <= rest.len()
            &&& first.payload == rest.take(n)
            &&& b.tracks.len() == f.tracks.len()
            &&& b.tracks[t].cc == (f.tracks[t].cc + 1) % 16
            &&& f.rest_put(plan, t, riders, start, run, rest) == b.rest_put(
                plan,
                t,
                riders,
                false,
                a.run_after(plan, t, riders, start, run, rest.len() as int),
                rest.skip(n),
            )
        }),
{
    let pid = plan.tracks[t].pid;
    let a = f.paced_for(plan, t);
    let left = rest.len() as int;
    if !plan.tracks[t].is_video {
        lemma_tb_paced_pads(f, pid, crate::muxer::flow::AUDIO_TB_RX as int, pid);
    }
    assert(a.pads(f, pid));
    let field = a.packet_field(plan, t, riders, start, run, left);
    let cc = f.tracks[t].cc;
    lemma_packet_field_fits(a, plan, t, riders, start, run, left);
    lemma_pes_packet_len(pid, cc, start, field, rest);
    let packet = pes_packet(pid, cc, start, field, rest);
    lemma_pes_packet_read_back(pid, cc, start, field, rest);
    let first = parse_packet_spec(packet)->Ok_0;
    let b = stepped(f, plan, t, riders, start, run, rest);
    assert(b.out == a.out + packet);
    lemma_packets_on_put(a.out, packet, pid);
    assert forall|q: u16| q != pid && q != NULL_PID implies #[trigger] packets_on(b.out, q)
        == packets_on(f.out, q) by {
        if !plan.tracks[t].is_video {
            lemma_tb_paced_pads(f, pid, crate::muxer::flow::AUDIO_TB_RX as int, q);
        }
        lemma_packets_on_put(a.out, packet, q);
    }
    assert(carries_field(first, field));
    first
}

/// A packet before a cut makes a cut.
proof fn lemma_cut_grows(
    first: TsPacketView,
    more: Seq<TsPacketView>,
    pid: u16,
    cc: u8,
    start: bool,
    rest: Seq<u8>,
    riders: Riders,
)
    requires
        cc < 16,
        plain_packet(first, pid, start, cc),
        packet_carries(first, start, riders),
        0 < first.payload.len() <= rest.len(),
        first.payload == rest.take(first.payload.len() as int),
        is_cut(more, pid, ((cc + 1) % 16) as u8, false, rest.skip(first.payload.len() as int)),
        carries_riders(more, false, riders),
    ensures
        is_cut(seq![first] + more, pid, cc, start, rest),
        carries_riders(seq![first] + more, start, riders),
{
    let ps = seq![first] + more;
    lemma_joined_first(first, more);
    assert(joined_payloads(ps) =~= rest);
    assert forall|i: int| 0 <= i < ps.len() implies {
        &&& plain_packet(#[trigger] ps[i], pid, start && i == 0, ((cc + i) % 16) as u8)
        &&& ps[i].payload.len() > 0
    } by {
        if i > 0 {
            assert(ps[i] == more[i - 1]);
            assert(((cc + 1) % 16 + (i - 1)) % 16 == (cc + i) % 16);
        }
    }
    assert forall|i: int| 0 <= i < ps.len() implies packet_carries(
        #[trigger] ps[i],
        start && i == 0,
        riders,
    ) by {
        if i > 0 {
            assert(ps[i] == more[i - 1]);
        }
    }
}

/// `g` is `f` with `rest` written on stream `t`, as a reader finds it: on the
/// PID of the stream come the packets `ps` that it is cut into, every other PID
/// is left alone, and the counter of the stream goes on by their number.
#[verifier::opaque]
pub open spec fn reads_as_cut(
    f: FlowView,
    g: FlowView,
    plan: PlanView,
    t: int,
    riders: Riders,
    start: bool,
    rest: Seq<u8>,
    ps: Seq<TsPacketView>,
) -> bool {
    let pid = plan.tracks[t].pid;
    &&& packets_on(g.out, pid) == packets_on(f.out, pid) + ps
    &&& forall|q: u16|
        q != pid && q != NULL_PID ==> #[trigger] packets_on(g.out, q) == packets_on(f.out, q)
    &&& is_cut(ps, pid, f.tracks[t].cc, start, rest)
    &&& carries_riders(ps, start, riders)
    &&& g.tracks.len() == f.tracks.len()
    &&& g.tracks[t].cc == (f.tracks[t].cc + ps.len()) % 16
}

proof fn lemma_nothing_to_write(
    f: FlowView,
    plan: PlanView,
    t: int,
    riders: Riders,
    start: bool,
    rest: Seq<u8>,
)
    requires
        f.tracks[t].cc < 16,
        rest.len() == 0,
    ensures
        reads_as_cut(f, f, plan, t, riders, start, rest, Seq::empty()),
{
    reveal(reads_as_cut);
    let none = Seq::<TsPacketView>::empty();
    let pid = plan.tracks[t].pid;
    assert(packets_on(f.out, pid) + none =~= packets_on(f.out, pid));
    assert(joined_payloads(none) =~= rest);
}

proof fn lemma_cut_continues(
    f: FlowView,
    b: FlowView,
    g: FlowView,
    plan: PlanView,
    t: int,
    riders: Riders,
    start: bool,
    rest: Seq<u8>,
    first: TsPacketView,
    more: Seq<TsPacketView>,
)
    requires
        f.tracks[t].cc < 16,
        packets_on(b.out, plan.tracks[t].pid) == packets_on(f.out, plan.tracks[t].pid).push(first),
        forall|q: u16|
            q != plan.tracks[t].pid && q != NULL_PID ==> #[trigger] packets_on(b.out, q)
                == packets_on(f.out, q),
        plain_packet(first, plan.tracks[t].pid, start, f.tracks[t].cc),
        packet_carries(first, start, riders),
        0 < first.payload.len() <= rest.len(),
        first.payload == rest.take(first.payload.len() as int),
        b.tracks.len() == f.tracks.len(),
        b.tracks[t].cc == (f.tracks[t].cc + 1) % 16,
        reads_as_cut(
            b,
            g,
            plan,
            t,
            riders,
            false,
            rest.skip(first.payload.len() as int),
            more,
        ),
    ensures
        reads_as_cut(f, g, plan, t, riders, start, rest, seq![first] + more),
{
    reveal(reads_as_cut);
    let pid = plan.tracks[t].pid;
    let cc = f.tracks[t].cc;
    let ps = seq![first] + more;
    lemma_cut_grows(first, more, pid, cc, start, rest, riders);
    assert(packets_on(f.out, pid).push(first) + more =~= packets_on(f.out, pid) + ps);
    assert(((cc + 1) % 16 + more.len()) % 16 == (cc + ps.len()) % 16);
    assert forall|q: u16| q != pid && q != NULL_PID implies #[trigger] packets_on(g.out, q)
        == packets_on(f.out, q) by {
        assert(packets_on(b.out, q) == packets_on(f.out, q));
    }
}

/// The rest of a PES packet is read back on its PID, cut into packets.
pub proof fn lemma_rest_read_back(
    f: FlowView,
    plan: PlanView,
    t: int,
    riders: Riders,
    start: bool,
    run: Option<int>,
    rest: Seq<u8>,
) -> (ps: Seq<TsPacketView>)
    requires
        0 <= t < plan.tracks.len(),
        f.tracks.len() == plan.tracks.len(),
        f.tracks[t].cc < 16,
        riders.wf(),
        plan.tracks[t].pid < 0x1FFF,
    ensures
        reads_as_cut(
            f,
            f.rest_put(plan, t, riders, start, run, rest),
            plan,
            t,
            riders,
            start,
            rest,
            ps,
        ),
    decreases rest.len(),
{
    let left = rest.len() as int;
    if left == 0 {
        lemma_nothing_to_write(f, plan, t, riders, start, rest);
        Seq::empty()
    } else {
        let first = lemma_step_read_back(f, plan, t, riders, start, run, rest);
        let b = stepped(f, plan, t, riders, start, run, rest);
        let n = first.payload.len() as int;
        let next = f.paced_for(plan, t).run_after(plan, t, riders, start, run, left);
        let more = lemma_rest_read_back(b, plan, t, riders, false, next, rest.skip(n));
        let g = f.rest_put(plan, t, riders, start, run, rest);
        lemma_cut_continues(f, b, g, plan, t, riders, start, rest, first, more);
        seq![first] + more
    }
}

/// The next counter after the packets `ps`, if they count on from `cc`: a packet
/// with payload has the next counter, one without repeats the last one.
pub open spec fn counted_on(ps: Seq<TsPacketView>, cc: u8) -> Option<u8>
    decreases ps.len(),
{
    if ps.len() == 0 {
        Some(cc)
    } else {
        match counted_on(ps.drop_last(), cc) {
            None => None,
            Some(c) => if ps.last().payload.len() == 0 && ps.last().continuity_counter == (c + 15)
                % 16 {
                Some(c)
            } else if ps.last().payload.len() > 0 && ps.last().continuity_counter == c {
                Some(((c + 1) % 16) as u8)
            } else {
                None
            },
        }
    }
}

/// Counting goes on where it stopped.
pub proof fn lemma_counted_on_goes_on(a: Seq<TsPacketView>, b: Seq<TsPacketView>, cc: u8)
    requires
        counted_on(a, cc) is Some,
    ensures
        counted_on(a + b, cc) == counted_on(b, counted_on(a, cc)->0),
    decreases b.len(),
{
    if b.len() == 0 {
        assert(a + b =~= a);
    } else {
        lemma_counted_on_goes_on(a, b.drop_last(), cc);
        assert((a + b).drop_last() =~= a + b.drop_last());
    }
}

/// What data is cut into counts on.
pub proof fn lemma_cut_counts(
    ps: Seq<TsPacketView>,
    pid: u16,
    cc: u8,
    start: bool,
    data: Seq<u8>,
    k: int,
)
    requires
        cc < 16,
        is_cut(ps, pid, cc, start, data),
        0 <= k <= ps.len(),
    ensures
        counted_on(ps.take(k), cc) == Some(((cc + k) % 16) as u8),
    decreases k,
{
    if k > 0 {
        lemma_cut_counts(ps, pid, cc, start, data, k - 1);
        assert(ps.take(k).drop_last() =~= ps.take(k - 1));
        assert(ps.take(k).last() == ps[k - 1]);
        assert(((cc + (k - 1)) % 16 + 1) % 16 == (cc + k) % 16);
    }
}

/// Packets without payload that repeat the last counter do not count.
pub proof fn lemma_empty_packets_count(ps: Seq<TsPacketView>, cc: u8)
    requires
        forall|i: int|
            0 <= i < ps.len() ==> (#[trigger] ps[i]).payload.len() == 0
                && ps[i].continuity_counter == (cc + 15) % 16,
    ensures
        counted_on(ps, cc) == Some(cc),
    decreases ps.len(),
{
    if ps.len() > 0 {
        lemma_empty_packets_count(ps.drop_last(), cc);
        assert(ps[ps.len() - 1].payload.len() == 0);
    }
}

/// Packets that count on are taken neither for a gap nor for a repeat.
pub proof fn lemma_counting_is_continuous(ps: Seq<TsPacketView>, cc: u8, c: Continuity, k: int)
    requires
        cc < 16,
        counted_on(ps, cc) is Some,
        c.last matches Some(l) ==> l == (cc + 15) % 16,
        0 <= k < ps.len(),
    ensures
        ({
            let e = seen(c, ps.take(k)).event(
                ps[k].continuity_counter,
                ps[k].payload.len() > 0,
                signals(ps[k]),
            );
            !(e is Dropped) && !(e is Duplicate)
        }),
{
    lemma_counting_seen(ps, cc, c, k);
    lemma_counted_prefix(ps, cc, k + 1);
    assert(ps.take(k + 1).drop_last() =~= ps.take(k));
    assert(ps.take(k + 1).last() == ps[k]);
    lemma_counting_step(
        seen(c, ps.take(k)),
        counted_on(ps.take(k), cc)->0,
        ps[k].continuity_counter,
        ps[k].payload.len() > 0,
        signals(ps[k]),
    );
}

/// The packet signals a discontinuity.
pub open spec fn signals(p: TsPacketView) -> bool {
    p.adaptation_field is Some && p.adaptation_field->0.discontinuity_indicator
}

/// What an observer of continuity counters knows after the packets `ps`.
pub open spec fn seen(c: Continuity, ps: Seq<TsPacketView>) -> Continuity
    decreases ps.len(),
{
    if ps.len() == 0 {
        c
    } else {
        seen(c, ps.drop_last()).observed(
            ps.last().continuity_counter,
            ps.last().payload.len() > 0,
            signals(ps.last()),
        )
    }
}

proof fn lemma_counted_prefix(ps: Seq<TsPacketView>, cc: u8, k: int)
    requires
        counted_on(ps, cc) is Some,
        0 <= k <= ps.len(),
    ensures
        counted_on(ps.take(k), cc) is Some,
    decreases ps.len(),
{
    if k < ps.len() {
        lemma_counted_prefix(ps.drop_last(), cc, k);
        assert(ps.drop_last().take(k) =~= ps.take(k));
    } else {
        assert(ps.take(k) =~= ps);
    }
}

/// One more packet that counts on.
proof fn lemma_counting_step(c: Continuity, x: u8, cc: u8, has_payload: bool, discontinuity: bool)
    requires
        x < 16,
        c.last matches Some(l) ==> l == (x + 15) % 16,
        cc == (if has_payload { x as int } else { (x + 15) % 16 }),
    ensures
        c.observed(cc, has_payload, discontinuity).last matches Some(l) ==> l == (if has_payload {
            x as int
        } else {
            (x + 15) % 16
        }),
        !(c.event(cc, has_payload, discontinuity) is Dropped),
        !(c.event(cc, has_payload, discontinuity) is Duplicate),
{
}

proof fn lemma_counting_seen(ps: Seq<TsPacketView>, cc: u8, c: Continuity, k: int)
    requires
        cc < 16,
        counted_on(ps, cc) is Some,
        c.last matches Some(l) ==> l == (cc + 15) % 16,
        0 <= k <= ps.len(),
    ensures
        counted_on(ps.take(k), cc) matches Some(x) && x < 16 && (seen(c, ps.take(k)).last matches Some(
            l,
        ) ==> l == (x + 15) % 16),
    decreases k,
{
    lemma_counted_prefix(ps, cc, k);
    if k > 0 {
        lemma_counting_seen(ps, cc, c, k - 1);
        let now = ps.take(k);
        let p = ps[k - 1];
        assert(now.drop_last() =~= ps.take(k - 1));
        assert(now.last() == p);
        let before = seen(c, ps.take(k - 1));
        let x = counted_on(ps.take(k - 1), cc)->0;
        lemma_counting_step(before, x, p.continuity_counter, p.payload.len() > 0, signals(p));
        assert(seen(c, now) == before.observed(
            p.continuity_counter,
            p.payload.len() > 0,
            signals(p),
        ));
    }
}

} // verus!
