//! A frame that was written is read back.
use vstd::prelude::*;

use crate::error::TsError;
use crate::muxer::deliver::riders_for;
use crate::muxer::flow::{FlowView, PlanView};
use crate::muxer::frame::Riders;
use crate::muxer::pes::{
    first_header, first_len, frame_error, frame_packets, is_mux_stream_id, next_header,
    next_packets, ring_of,
};
use crate::muxer::read_back::{
    carries_riders, counted_on, is_cut, lemma_counted_on_goes_on, lemma_cut_counts,
    lemma_rest_read_back, packet_carries, packets_on, plain_packet, reads_as_cut,
};
use crate::packet::parse::TsPacketView;
use crate::pes::encode::PesHeaderSpec;
use crate::pes::parse::{parse_pes_spec, PesPacketView};
use crate::pes::reassemble::{joined_payloads, lemma_read_goes_on, marked, Reading, Reassembly};
use crate::pes::round_trip::{lemma_pes_round_trip, packet_of};
use crate::validate::discovery::NULL_PID;

verus! {

/// A PES packet is read back on its PID, cut into packets.
pub proof fn lemma_pes_read_back(
    f: FlowView,
    plan: PlanView,
    t: int,
    riders: Riders,
    pes: Seq<u8>,
) -> (ps: Seq<TsPacketView>)
    requires
        0 <= t < plan.tracks.len(),
        f.tracks.len() == plan.tracks.len(),
        f.tracks[t].cc < 16,
        riders.wf(),
        plan.tracks[t].pid < 0x1FFF,
    ensures
        reads_as_cut(f, f.pes_put(plan, t, riders, pes), plan, t, riders, true, pes, ps),
{
    match riders.splice {
        None => lemma_rest_read_back(f, plan, t, riders, true, None, pes),
        Some(s) => {
            let a = f.with_after_splice(t, None);
            let ps = lemma_rest_read_back(a, plan, t, riders, true, None, pes);
            reveal(reads_as_cut);
            ps
        },
    }
}

/// A reassembler fed with what a PES packet is cut into has that packet in
/// flight, marked if it is asked for; the packet before it is handed out.
pub proof fn lemma_cut_reassembles(
    s: Reassembly,
    ps: Seq<TsPacketView>,
    pid: u16,
    cc: u8,
    pes: Seq<u8>,
    riders: Riders,
)
    requires
        is_cut(ps, pid, cc, true, pes),
        carries_riders(ps, true, riders),
        pes.len() > 0,
        is_ready(s),
    ensures
        s.read(ps).state == (Reassembly {
            buf: pes,
            started: true,
            current_rai: riders.random_access,
            pending_rai: false,
        }),
        s.read(ps).units == s.closing(),
{
    if ps.len() == 0 {
        assert(joined_payloads(ps).len() == 0);
    }
    lemma_cut_prefix_reassembles(s, ps, pid, cc, pes, riders, ps.len() as int);
    assert(ps.take(ps.len() as int) =~= ps);
}

proof fn lemma_cut_prefix_reassembles(
    s: Reassembly,
    ps: Seq<TsPacketView>,
    pid: u16,
    cc: u8,
    pes: Seq<u8>,
    riders: Riders,
    k: int,
)
    requires
        is_cut(ps, pid, cc, true, pes),
        carries_riders(ps, true, riders),
        1 <= k <= ps.len(),
        is_ready(s),
    ensures
        s.read(ps.take(k)).state == (Reassembly {
            buf: joined_payloads(ps.take(k)),
            started: true,
            current_rai: riders.random_access,
            pending_rai: false,
        }),
        s.read(ps.take(k)).units == s.closing(),
    decreases k,
{
    let now = ps.take(k);
    let p = ps[k - 1];
    assert(now.last() == p);
    assert(now.drop_last() =~= ps.take(k - 1));
    assert(plain_packet(p, pid, k == 1, ((cc + (k - 1)) % 16) as u8));
    assert(packet_carries(p, k == 1, riders));
    if k == 1 {
        reveal_with_fuel(joined_payloads, 2);
        assert(ps.take(0) =~= Seq::empty());
        assert(s.read(ps.take(0)) == (Reading { state: s, units: Seq::empty() }));
        assert(joined_payloads(now) =~= p.payload);
        assert(s.read(now).units =~= s.closing());
    } else {
        lemma_cut_prefix_reassembles(s, ps, pid, cc, pes, riders, k - 1);
        assert(s.read(now).units =~= s.closing());
    }
}

/// The further PES packets of a frame, as they are read.
pub open spec fn next_units(stream_id: u8, data: Seq<u8>) -> Seq<PesPacketView>
    decreases data.len(),
{
    if data.len() == 0 {
        Seq::empty()
    } else if data.len() <= 0xFFFC {
        seq![packet_of(next_header(stream_id), data)]
    } else {
        seq![packet_of(next_header(stream_id), data.take(0xFFFC))] + next_units(
            stream_id,
            data.skip(0xFFFC),
        )
    }
}

/// The PES packets of a frame, as they are read: the first one with the
/// timestamps and, for a keyframe that may say so, the mark; the data spread over
/// all of them.
pub open spec fn frame_units(
    stream_id: u8,
    pts: Option<i64>,
    dts: Option<i64>,
    data: Seq<u8>,
    random_access: bool,
) -> Seq<PesPacketView> {
    let h = first_header(stream_id, pts, dts);
    let n = first_len(h, data.len() as int);
    seq![marked(packet_of(h, data.take(n)), random_access)] + next_units(stream_id, data.skip(n))
}

/// The payloads of `units`, one after the other.
pub open spec fn payload_of(units: Seq<PesPacketView>) -> Seq<u8>
    decreases units.len(),
{
    if units.len() == 0 {
        Seq::empty()
    } else {
        units[0].payload + payload_of(units.skip(1))
    }
}

proof fn lemma_next_units(stream_id: u8, data: Seq<u8>)
    requires
        is_mux_stream_id(stream_id),
    ensures
        next_units(stream_id, data).len() == next_packets(stream_id, data).len(),
        payload_of(next_units(stream_id, data)) == data,
        forall|k: int|
            0 <= k < next_units(stream_id, data).len() ==> {
                &&& parse_pes_spec(#[trigger] next_packets(stream_id, data)[k]) == Ok::<
                    PesPacketView,
                    TsError,
                >(next_units(stream_id, data)[k])
                &&& next_units(stream_id, data)[k] == marked(next_units(stream_id, data)[k], false)
                &&& next_packets(stream_id, data)[k].len() > 0
            },
        forall|k: int|
            0 <= k < next_units(stream_id, data).len() ==> {
                &&& (#[trigger] next_units(stream_id, data)[k]).pts_90k is None
                &&& next_units(stream_id, data)[k].dts_90k is None
            },
    decreases data.len(),
{
    let units = next_units(stream_id, data);
    let h = next_header(stream_id);
    if data.len() == 0 {
        assert(payload_of(units) =~= data);
    } else if data.len() <= 0xFFFC {
        crate::muxer::pes::lemma_next_header_fits(stream_id, data.len() as int);
        lemma_pes_round_trip(h, data);
        reveal_with_fuel(payload_of, 2);
        assert(units.skip(1) =~= Seq::empty());
        assert(payload_of(units) =~= data);
    } else {
        let head = data.take(0xFFFC);
        let tail = data.skip(0xFFFC);
        crate::muxer::pes::lemma_next_header_fits(stream_id, 0xFFFC);
        lemma_pes_round_trip(h, head);
        lemma_next_units(stream_id, tail);
        assert(units.skip(1) =~= next_units(stream_id, tail));
        assert(payload_of(units) =~= data);
        assert forall|k: int| 0 <= k < units.len() implies {
            &&& parse_pes_spec(#[trigger] next_packets(stream_id, data)[k]) == Ok::<
                PesPacketView,
                TsError,
            >(units[k])
            &&& units[k] == marked(units[k], false)
            &&& next_packets(stream_id, data)[k].len() > 0
        } by {
            if k > 0 {
                assert(next_packets(stream_id, data)[k] == next_packets(stream_id, tail)[k - 1]);
                assert(units[k] == next_units(stream_id, tail)[k - 1]);
            }
        }
        assert forall|k: int| 0 <= k < units.len() implies {
            &&& (#[trigger] units[k]).pts_90k is None
            &&& units[k].dts_90k is None
        } by {
            if k > 0 {
                assert(units[k] == next_units(stream_id, tail)[k - 1]);
            }
        }
    }
}

/// An encoded PES packet parses, and is not empty.
proof fn lemma_encoded_parses(h: PesHeaderSpec, payload: Seq<u8>)
    requires
        h.error(payload.len() as int) is None,
    ensures
        parse_pes_spec(h.encoded(payload)) == Ok::<PesPacketView, TsError>(packet_of(h, payload)),
        h.encoded(payload).len() > 0,
{
    lemma_pes_round_trip(h, payload);
}

/// Unit `k` is what PES packet `k` is read as; only the first may be marked.
#[verifier::opaque]
pub open spec fn reads_as_units(
    packets: Seq<Seq<u8>>,
    units: Seq<PesPacketView>,
    random_access: bool,
) -> bool {
    &&& units.len() == packets.len()
    &&& forall|k: int|
        0 <= k < packets.len() ==> {
            &&& (#[trigger] packets[k]).len() > 0
            &&& parse_pes_spec(packets[k]) is Ok
            &&& marked(parse_pes_spec(packets[k])->Ok_0, k == 0 && random_access) == units[k]
        }
}

/// The PES packets of a frame parse to its units.
pub proof fn lemma_frame_parses(
    stream_id: u8,
    pts: Option<i64>,
    dts: Option<i64>,
    data: Seq<u8>,
    random_access: bool,
)
    requires
        is_mux_stream_id(stream_id),
        frame_error(stream_id, pts, dts, data.len() as int) is None,
    ensures
        reads_as_units(
            frame_packets(stream_id, pts, dts, data),
            frame_units(stream_id, pts, dts, data, random_access),
            random_access,
        ),
{
    reveal(reads_as_units);
    let units = frame_units(stream_id, pts, dts, data, random_access);
    let packets = frame_packets(stream_id, pts, dts, data);
    let h = first_header(stream_id, pts, dts);
    let n = first_len(h, data.len() as int);
    lemma_encoded_parses(h, data.take(n));
    let rest = data.skip(n);
    lemma_next_units(stream_id, rest);
    assert forall|k: int| 0 <= k < packets.len() implies {
        &&& (#[trigger] packets[k]).len() > 0
        &&& parse_pes_spec(packets[k]) is Ok
        &&& marked(parse_pes_spec(packets[k])->Ok_0, k == 0 && random_access) == units[k]
    } by {
        if k > 0 {
            assert(packets[k] == next_packets(stream_id, rest)[k - 1]);
            assert(units[k] == next_units(stream_id, rest)[k - 1]);
        }
    }
}

/// The units of a frame hold the whole frame, and only the first one has
/// timestamps: those of the frame, the DTS only where it differs.
pub proof fn lemma_frame_units(
    stream_id: u8,
    pts: Option<i64>,
    dts: Option<i64>,
    data: Seq<u8>,
    random_access: bool,
)
    requires
        is_mux_stream_id(stream_id),
    ensures
        ({
            let units = frame_units(stream_id, pts, dts, data, random_access);
            &&& units.len() >= 1
            &&& payload_of(units) == data
            &&& units[0].pts_90k == ring_of(pts)
            &&& units[0].dts_90k == (if ring_of(dts) == ring_of(pts) {
                None
            } else {
                ring_of(dts)
            })
            &&& units[0].random_access == random_access
            &&& forall|k: int|
                1 <= k < units.len() ==> (#[trigger] units[k]).pts_90k is None && units[k].dts_90k
                    is None
        }),
{
    let units = frame_units(stream_id, pts, dts, data, random_access);
    let h = first_header(stream_id, pts, dts);
    let n = first_len(h, data.len() as int);
    let rest = data.skip(n);
    lemma_next_units(stream_id, rest);
    assert(units.skip(1) =~= next_units(stream_id, rest));
    assert(payload_of(units) =~= data.take(n) + rest);
    assert(data.take(n) + rest =~= data);
    assert forall|k: int| 1 <= k < units.len() implies (#[trigger] units[k]).pts_90k is None
        && units[k].dts_90k is None by {
        assert(units[k] == next_units(stream_id, rest)[k - 1]);
    }
}

/// `g` is `f` with the packets `ps` more on the PID of stream `t`, and nothing on
/// any other PID; the counter of the stream counts them.
#[verifier::opaque]
pub open spec fn gains(
    f: FlowView,
    g: FlowView,
    plan: PlanView,
    t: int,
    ps: Seq<TsPacketView>,
) -> bool {
    let pid = plan.tracks[t].pid;
    &&& packets_on(g.out, pid) == packets_on(f.out, pid) + ps
    &&& forall|q: u16|
        q != pid && q != NULL_PID ==> #[trigger] packets_on(g.out, q) == packets_on(f.out, q)
    &&& g.tracks.len() == f.tracks.len()
    &&& g.tracks[t].cc < 16
    &&& counted_on(ps, f.tracks[t].cc) == Some(g.tracks[t].cc)
}

/// A reassembler can take a start: no mark is pending, and what is in flight
/// parses.
pub open spec fn is_ready(s: Reassembly) -> bool {
    !s.pending_rai && (s.started ==> s.in_flight() is Ok)
}

/// A reassembler in state `s` that is fed with `ps` hands out `units`, the last
/// one when it is closed, after what it has in flight.
#[verifier::opaque]
pub open spec fn hands_out(
    s: Reassembly,
    ps: Seq<TsPacketView>,
    units: Seq<PesPacketView>,
) -> bool {
    let r = s.read(ps);
    &&& is_ready(r.state)
    &&& r.units + r.state.closing() == s.closing() + units
}

proof fn lemma_no_frame(f: FlowView, plan: PlanView, t: int, s: Reassembly)
    requires
        f.tracks[t].cc < 16,
        is_ready(s),
    ensures
        gains(f, f, plan, t, Seq::empty()),
        hands_out(s, Seq::empty(), Seq::empty()),
{
    reveal(gains);
    reveal(hands_out);
    let pid = plan.tracks[t].pid;
    let none = Seq::<TsPacketView>::empty();
    assert(packets_on(f.out, pid) + none =~= packets_on(f.out, pid));
    assert(s.read(none).units + s.closing() =~= s.closing() + Seq::<PesPacketView>::empty());
}

proof fn lemma_gains_more(
    f: FlowView,
    f0: FlowView,
    g: FlowView,
    plan: PlanView,
    t: int,
    a: Seq<TsPacketView>,
    b: Seq<TsPacketView>,
)
    requires
        f.tracks[t].cc < 16,
        gains(f, f0, plan, t, a),
        gains(f0, g, plan, t, b),
    ensures
        gains(f, g, plan, t, a + b),
{
    reveal(gains);
    let pid = plan.tracks[t].pid;
    assert(packets_on(f.out, pid) + a + b =~= packets_on(f.out, pid) + (a + b));
    assert forall|q: u16| q != pid && q != NULL_PID implies #[trigger] packets_on(g.out, q)
        == packets_on(f.out, q) by {
        assert(packets_on(f0.out, q) == packets_on(f.out, q));
    }
    lemma_counted_on_goes_on(a, b, f.tracks[t].cc);
}

/// A PES packet that parses, in flight.
proof fn lemma_in_flight(pes: Seq<u8>, unit: PesPacketView, rai: bool)
    requires
        parse_pes_spec(pes) == Ok::<PesPacketView, TsError>(unit),
    ensures
        ({
            let s = Reassembly { buf: pes, started: true, current_rai: rai, pending_rai: false };
            is_ready(s) && s.closing() == seq![marked(unit, rai)]
        }),
{
}

proof fn lemma_hands_out_more(
    s: Reassembly,
    a: Seq<TsPacketView>,
    b: Seq<TsPacketView>,
    units: Seq<PesPacketView>,
    unit: PesPacketView,
)
    requires
        hands_out(s, a, units),
        s.read(a).state.read(b).units == s.read(a).state.closing(),
        is_ready(s.read(a).state.read(b).state),
        s.read(a).state.read(b).state.closing() == seq![unit],
    ensures
        hands_out(s, a + b, units.push(unit)),
{
    reveal(hands_out);
    lemma_read_goes_on(s, a, b);
    let r = s.read(a + b);
    assert(r.units + r.state.closing() =~= s.closing() + units.push(unit));
}

/// One more PES packet.
proof fn lemma_frame_grows(
    f0: FlowView,
    g: FlowView,
    plan: PlanView,
    t: int,
    s: Reassembly,
    ps0: Seq<TsPacketView>,
    units: Seq<PesPacketView>,
    riders: Riders,
    pes: Seq<u8>,
    unit: PesPacketView,
    more: Seq<TsPacketView>,
)
    requires
        f0.tracks[t].cc < 16,
        hands_out(s, ps0, units),
        reads_as_cut(f0, g, plan, t, riders, true, pes, more),
        pes.len() > 0,
        parse_pes_spec(pes) == Ok::<PesPacketView, TsError>(unit),
    ensures
        gains(f0, g, plan, t, more),
        hands_out(s, ps0 + more, units.push(marked(unit, riders.random_access))),
{
    assert(gains(f0, g, plan, t, more)) by {
        reveal(gains);
        reveal(reads_as_cut);
        lemma_cut_counts(
            more,
            plan.tracks[t].pid,
            f0.tracks[t].cc,
            true,
            pes,
            more.len() as int,
        );
        assert(more.take(more.len() as int) =~= more);
    }
    let s0 = s.read(ps0).state;
    assert(is_ready(s0)) by {
        reveal(hands_out);
    }
    assert(is_cut(more, plan.tracks[t].pid, f0.tracks[t].cc, true, pes) && carries_riders(
        more,
        true,
        riders,
    )) by {
        reveal(reads_as_cut);
    }
    lemma_cut_reassembles(s0, more, plan.tracks[t].pid, f0.tracks[t].cc, pes, riders);
    lemma_in_flight(pes, unit, riders.random_access);
    lemma_hands_out_more(s, ps0, more, units, marked(unit, riders.random_access));
}

/// A frame's PES packets, one after the other, are read back on its PID.
pub proof fn lemma_frame_put_read_back(
    f: FlowView,
    plan: PlanView,
    t: int,
    riders: Riders,
    packets: Seq<Seq<u8>>,
    units: Seq<PesPacketView>,
    n: int,
    s: Reassembly,
) -> (ps: Seq<TsPacketView>)
    requires
        0 <= t < plan.tracks.len(),
        f.tracks.len() == plan.tracks.len(),
        f.tracks[t].cc < 16,
        riders.wf(),
        plan.tracks[t].pid < 0x1FFF,
        reads_as_units(packets, units, riders.random_access),
        0 <= n <= packets.len(),
        is_ready(s),
    ensures
        gains(f, f.frame_put(plan, t, riders, packets, n), plan, t, ps),
        hands_out(s, ps, units.take(n)),
    decreases n,
{
    if n == 0 {
        lemma_no_frame(f, plan, t, s);
        assert(units.take(0) =~= Seq::empty());
        Seq::empty()
    } else {
        let ps0 = lemma_frame_put_read_back(f, plan, t, riders, packets, units, n - 1, s);
        let f0 = f.frame_put(plan, t, riders, packets, n - 1);
        let mine = riders_for(riders, n - 1, packets.len() - 1);
        let pes = packets[n - 1];
        assert(f0.tracks.len() == f.tracks.len() && f0.tracks[t].cc < 16) by {
            reveal(gains);
        }
        let more = lemma_pes_read_back(f0, plan, t, mine, pes);
        let g = f.frame_put(plan, t, riders, packets, n);
        let unit = parse_pes_spec(pes)->Ok_0;
        assert(pes.len() > 0 && parse_pes_spec(pes) is Ok && units.take(n) =~= units.take(
            n - 1,
        ).push(marked(unit, mine.random_access))) by {
            reveal(reads_as_units);
        }
        lemma_frame_grows(f0, g, plan, t, s, ps0, units.take(n - 1), mine, pes, unit, more);
        lemma_gains_more(f, f0, g, plan, t, ps0, more);
        ps0 + more
    }
}

} // verus!
