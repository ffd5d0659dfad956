//! The continuity counters of every PID count on.
use vstd::prelude::*;

use crate::muxer::flow::{FlowView, PlanView, Slot, TableCounters, TrackFlow};
use crate::muxer::packets::{
    lemma_pes_packet_len, null_packet, pcr_packet, pes_packet, pes_take, psi_packet, Field,
};
use crate::muxer::plan_laws::{laid_out, tables_apart};
use crate::muxer::read_back::{
    counted_on, lemma_null_elsewhere, lemma_packets_on_put, lemma_pcr_packet_read_back,
    lemma_pes_packet_read_back, lemma_psi_packet_read_back, packets_on,
};
use crate::packet::parse::{parse_packet_spec, TsPacketView};
use crate::validate::discovery::NULL_PID;

verus! {

/// The packets `ps` count on, and the next counter is `c`.
#[verifier::opaque]
pub open spec fn counts_to(ps: Seq<TsPacketView>, c: u8) -> bool {
    exists|c0: u8| c0 < 16 && #[trigger] counted_on(ps, c0) == Some(c)
}

proof fn lemma_counts_none(c: u8)
    requires
        c < 16,
    ensures
        counts_to(Seq::empty(), c),
{
    reveal(counts_to);
    assert(counted_on(Seq::empty(), c) == Some(c));
}

/// A packet with payload counts.
proof fn lemma_counts_payload(ps: Seq<TsPacketView>, c: u8, p: TsPacketView)
    requires
        counts_to(ps, c),
        p.payload.len() > 0,
        p.continuity_counter == c,
    ensures
        counts_to(ps.push(p), ((c + 1) % 16) as u8),
{
    reveal(counts_to);
    let c0 = choose|c0: u8| c0 < 16 && #[trigger] counted_on(ps, c0) == Some(c);
    assert(ps.push(p).drop_last() =~= ps);
    assert(counted_on(ps.push(p), c0) == Some(((c + 1) % 16) as u8));
}

/// A packet without payload repeats the last counter.
proof fn lemma_counts_empty(ps: Seq<TsPacketView>, c: u8, p: TsPacketView)
    requires
        counts_to(ps, c),
        p.payload.len() == 0,
        p.continuity_counter == (c + 15) % 16,
    ensures
        counts_to(ps.push(p), c),
{
    reveal(counts_to);
    let c0 = choose|c0: u8| c0 < 16 && #[trigger] counted_on(ps, c0) == Some(c);
    assert(ps.push(p).drop_last() =~= ps);
    assert(counted_on(ps.push(p), c0) == Some(c));
}

/// PID `q` is that of a stream or of a table.
pub open spec fn is_used(plan: PlanView, q: u16) -> bool {
    ||| exists|t: int| 0 <= t < plan.tracks.len() && (#[trigger] plan.tracks[t]).pid == q
    ||| exists|i: int| 0 <= i < plan.tables.len() && (#[trigger] plan.tables[i]).pid == q
}

/// The continuity counter of a table's next packet.
pub open spec fn counter_in(cc: TableCounters, pmt: Seq<u8>, slot: Slot) -> u8 {
    match slot {
        Slot::Pat => cc.pat,
        Slot::Pmt(p) => pmt[p as int],
        Slot::Sdt => cc.sdt,
        Slot::Nit => cc.nit,
        Slot::Eit => cc.eit,
    }
}

/// On every PID of a stream or a table the packets of `out` count on, up to the
/// counter that comes next; on any other PID there is no packet but padding.
#[verifier::opaque]
pub open spec fn all_count(
    out: Seq<u8>,
    tracks: Seq<TrackFlow>,
    cc: TableCounters,
    pmt: Seq<u8>,
    plan: PlanView,
) -> bool {
    &&& forall|t: int|
        0 <= t < plan.tracks.len() ==> counts_to(
            packets_on(out, (#[trigger] plan.tracks[t]).pid),
            tracks[t].cc,
        )
    &&& forall|i: int|
        0 <= i < plan.tables.len() ==> counts_to(
            packets_on(out, (#[trigger] plan.tables[i]).pid),
            counter_in(cc, pmt, plan.tables[i].slot),
        )
    &&& forall|q: u16|
        q != NULL_PID && !is_used(plan, q) ==> (#[trigger] packets_on(out, q)).len() == 0
}

/// Every PID has one owner.
pub open spec fn owned(plan: PlanView) -> bool {
    laid_out(plan) && tables_apart(plan)
}

/// Padding does not count.
pub proof fn lemma_null_counts(
    out: Seq<u8>,
    tracks: Seq<TrackFlow>,
    cc: TableCounters,
    pmt: Seq<u8>,
    plan: PlanView,
)
    requires
        owned(plan),
        all_count(out, tracks, cc, pmt, plan),
    ensures
        all_count(out + null_packet(), tracks, cc, pmt, plan),
{
    reveal(all_count);
    reveal(laid_out);
    let now = out + null_packet();
    assert forall|q: u16| q != NULL_PID implies #[trigger] packets_on(now, q) == packets_on(
        out,
        q,
    ) by {
        lemma_null_elsewhere(out, q);
    }
    assert forall|t: int| 0 <= t < plan.tracks.len() implies counts_to(
        packets_on(now, (#[trigger] plan.tracks[t]).pid),
        tracks[t].cc,
    ) by {
        assert(packets_on(now, plan.tracks[t].pid) == packets_on(out, plan.tracks[t].pid));
    }
    assert forall|i: int| 0 <= i < plan.tables.len() implies counts_to(
        packets_on(now, (#[trigger] plan.tables[i]).pid),
        counter_in(cc, pmt, plan.tables[i].slot),
    ) by {
        assert(packets_on(now, plan.tables[i].pid) == packets_on(out, plan.tables[i].pid));
    }
}

/// A standalone clock reference repeats the counter of its stream.
pub proof fn lemma_pcr_counts(
    f: FlowView,
    plan: PlanView,
    p: int,
    d: bool,
    base: u64,
    ext: u16,
)
    requires
        owned(plan),
        all_count(f.out, f.tracks, f.table_cc, f.pmt_cc, plan),
        0 <= p < plan.programs.len(),
        plan.programs[p].pcr_track is Some,
        base <= 0x1_FFFF_FFFF,
        ext <= 0x1FF,
    ensures
        ({
            let x = plan.programs[p].pcr_track->0 as int;
            let cc = ((f.tracks[x].cc + 15) % 16) as u8;
            all_count(
                f.out + pcr_packet(plan.programs[p].pcr_pid, cc, d, base, ext),
                f.tracks,
                f.table_cc,
                f.pmt_cc,
                plan,
            )
        }),
{
    reveal(all_count);
    reveal(laid_out);
    let x = plan.programs[p].pcr_track->0 as int;
    let pid = plan.programs[p].pcr_pid;
    let cc = ((f.tracks[x].cc + 15) % 16) as u8;
    let packet = pcr_packet(pid, cc, d, base, ext);
    let now = f.out + packet;
    lemma_pcr_packet_read_back(pid, cc, d, base, ext);
    let v = parse_packet_spec(packet)->Ok_0;
    assert(0 <= x < plan.tracks.len() && plan.tracks[x].pid == pid);
    assert forall|q: u16| #[trigger]
        packets_on(now, q) == (if q == pid {
            packets_on(f.out, q).push(v)
        } else {
            packets_on(f.out, q)
        }) by {
        lemma_packets_on_put(f.out, packet, q);
    }
    assert(counts_to(packets_on(f.out, pid), f.tracks[x].cc));
    lemma_counts_empty(packets_on(f.out, pid), f.tracks[x].cc, v);
    assert forall|t: int| 0 <= t < plan.tracks.len() implies counts_to(
        packets_on(now, (#[trigger] plan.tracks[t]).pid),
        f.tracks[t].cc,
    ) by {
        if t != x {
            assert(plan.tracks[t].pid != plan.tracks[x].pid);
        }
    }
    assert forall|i: int| 0 <= i < plan.tables.len() implies counts_to(
        packets_on(now, (#[trigger] plan.tables[i]).pid),
        counter_in(f.table_cc, f.pmt_cc, plan.tables[i].slot),
    ) by {
        assert(plan.tables[i].pid != plan.tracks[x].pid);
    }
    assert forall|q: u16| q != NULL_PID && !is_used(plan, q) implies (#[trigger] packets_on(
        now,
        q,
    )).len() == 0 by {
        assert(packets_on(f.out, q).len() == 0);
    }
}

/// A packet of a stream takes its counter on.
pub proof fn lemma_pes_counts(
    f: FlowView,
    plan: PlanView,
    t: int,
    start: bool,
    field: Field,
    rest: Seq<u8>,
    after: TrackFlow,
)
    requires
        owned(plan),
        all_count(f.out, f.tracks, f.table_cc, f.pmt_cc, plan),
        0 <= t < plan.tracks.len(),
        f.tracks.len() == plan.tracks.len(),
        f.tracks[t].cc < 16,
        field.wf(),
        rest.len() > 0,
        after.cc == (f.tracks[t].cc + 1) % 16,
    ensures
        all_count(
            f.out + pes_packet(plan.tracks[t].pid, f.tracks[t].cc, start, field, rest),
            f.tracks.update(t, after),
            f.table_cc,
            f.pmt_cc,
            plan,
        ),
{
    reveal(all_count);
    reveal(laid_out);
    let pid = plan.tracks[t].pid;
    let cc = f.tracks[t].cc;
    let packet = pes_packet(pid, cc, start, field, rest);
    let now = f.out + packet;
    let tracks = f.tracks.update(t, after);
    lemma_pes_packet_len(pid, cc, start, field, rest);
    lemma_pes_packet_read_back(pid, cc, start, field, rest);
    let v = parse_packet_spec(packet)->Ok_0;
    assert(v.payload.len() == pes_take(field, rest.len() as int));
    assert forall|q: u16| #[trigger]
        packets_on(now, q) == (if q == pid {
            packets_on(f.out, q).push(v)
        } else {
            packets_on(f.out, q)
        }) by {
        lemma_packets_on_put(f.out, packet, q);
    }
    assert(counts_to(packets_on(f.out, pid), cc));
    lemma_counts_payload(packets_on(f.out, pid), cc, v);
    assert forall|j: int| 0 <= j < plan.tracks.len() implies counts_to(
        packets_on(now, (#[trigger] plan.tracks[j]).pid),
        tracks[j].cc,
    ) by {
        if j != t {
            assert(plan.tracks[j].pid != plan.tracks[t].pid);
        }
    }
    assert forall|i: int| 0 <= i < plan.tables.len() implies counts_to(
        packets_on(now, (#[trigger] plan.tables[i]).pid),
        counter_in(f.table_cc, f.pmt_cc, plan.tables[i].slot),
    ) by {
        assert(plan.tables[i].pid != plan.tracks[t].pid);
    }
    assert forall|q: u16| q != NULL_PID && !is_used(plan, q) implies (#[trigger] packets_on(
        now,
        q,
    )).len() == 0 by {
        assert(packets_on(f.out, q).len() == 0);
    }
}

/// A packet of a table takes its counter on.
pub proof fn lemma_psi_counts(f: FlowView, plan: PlanView, k: int, start: bool, rest: Seq<u8>)
    requires
        owned(plan),
        all_count(f.out, f.tracks, f.table_cc, f.pmt_cc, plan),
        0 <= k < plan.tables.len(),
        f.pmt_cc.len() == plan.programs.len(),
        f.counter(plan.tables[k].slot) < 16,
    ensures
        ({
            let t = plan.tables[k];
            let g = f.put(psi_packet(t.pid, f.counter(t.slot), start, rest)).count_table(t.slot);
            all_count(g.out, g.tracks, g.table_cc, g.pmt_cc, plan)
        }),
{
    reveal(all_count);
    reveal(laid_out);
    reveal(tables_apart);
    let pid = plan.tables[k].pid;
    let slot = plan.tables[k].slot;
    let cc = f.counter(slot);
    let packet = psi_packet(pid, cc, start, rest);
    let g = f.put(packet).count_table(slot);
    let now = f.out + packet;
    assert(pid < 0x1FFF);
    lemma_psi_packet_read_back(pid, cc, start, rest);
    let v = parse_packet_spec(packet)->Ok_0;
    assert(g.out == now);
    assert(plan.has_slot(slot));
    assert forall|q: u16| #[trigger]
        packets_on(now, q) == (if q == pid {
            packets_on(f.out, q).push(v)
        } else {
            packets_on(f.out, q)
        }) by {
        lemma_packets_on_put(f.out, packet, q);
    }
    assert(counts_to(packets_on(f.out, pid), cc));
    assert(v.payload.len() > 0);
    lemma_counts_payload(packets_on(f.out, pid), cc, v);
    assert forall|j: int| 0 <= j < plan.tracks.len() implies counts_to(
        packets_on(now, (#[trigger] plan.tracks[j]).pid),
        g.tracks[j].cc,
    ) by {
        assert(plan.tables[k].pid != plan.tracks[j].pid);
    }
    assert forall|i: int| 0 <= i < plan.tables.len() implies counts_to(
        packets_on(now, (#[trigger] plan.tables[i]).pid),
        counter_in(g.table_cc, g.pmt_cc, plan.tables[i].slot),
    ) by {
        assert(plan.has_slot(plan.tables[i].slot));
        assert((plan.tables[i].pid == plan.tables[k].pid) == (plan.tables[i].slot
            == plan.tables[k].slot));
    }
    assert forall|q: u16| q != NULL_PID && !is_used(plan, q) implies (#[trigger] packets_on(
        now,
        q,
    )).len() == 0 by {
        assert(packets_on(f.out, q).len() == 0);
    }
}

/// Whatever else a stream remembers, its counter counts.
pub proof fn lemma_same_counters(
    out: Seq<u8>,
    a: Seq<TrackFlow>,
    b: Seq<TrackFlow>,
    cc: TableCounters,
    pmt: Seq<u8>,
    plan: PlanView,
)
    requires
        all_count(out, a, cc, pmt, plan),
        forall|t: int| 0 <= t < plan.tracks.len() ==> (#[trigger] b[t]).cc == a[t].cc,
    ensures
        all_count(out, b, cc, pmt, plan),
{
    reveal(all_count);
    assert forall|t: int| 0 <= t < plan.tracks.len() implies counts_to(
        packets_on(out, (#[trigger] plan.tracks[t]).pid),
        b[t].cc,
    ) by {
        assert(b[t].cc == a[t].cc);
    }
}

/// An output with nothing in it counts.
pub proof fn lemma_nothing_counts(f: FlowView, plan: PlanView)
    requires
        plan.wf(),
        f.out.len() == 0,
        f.tracks.len() == plan.tracks.len(),
        f.pmt_cc.len() == plan.programs.len(),
        forall|i: int| 0 <= i < f.tracks.len() ==> (#[trigger] f.tracks[i]).wf(),
        forall|i: int| 0 <= i < f.pmt_cc.len() ==> #[trigger] f.pmt_cc[i] < 16,
        f.table_cc.pat < 16 && f.table_cc.sdt < 16 && f.table_cc.nit < 16 && f.table_cc.eit < 16,
    ensures
        all_count(f.out, f.tracks, f.table_cc, f.pmt_cc, plan),
{
    reveal(all_count);
    reveal(packets_on);
    assert forall|t: int| 0 <= t < plan.tracks.len() implies counts_to(
        packets_on(f.out, (#[trigger] plan.tracks[t]).pid),
        f.tracks[t].cc,
    ) by {
        assert(f.tracks[t].wf());
        lemma_counts_none(f.tracks[t].cc);
    }
    assert forall|i: int| 0 <= i < plan.tables.len() implies counts_to(
        packets_on(f.out, (#[trigger] plan.tables[i]).pid),
        counter_in(f.table_cc, f.pmt_cc, plan.tables[i].slot),
    ) by {
        assert(plan.has_slot(plan.tables[i].slot));
        lemma_counts_none(counter_in(f.table_cc, f.pmt_cc, plan.tables[i].slot));
    }
}

} // verus!
