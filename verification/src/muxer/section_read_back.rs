//! A section that was written is read back.
use vstd::prelude::*;

use crate::muxer::flow::{FlowView, Slot, SYS_TB_KEY, SYS_TB_RX};
use crate::muxer::packets::{fill, psi_packet, psi_take};
use crate::muxer::read_back::{
    lemma_bsys_paced_pads, lemma_packets_on_put, lemma_psi_packet_read_back, lemma_tb_paced_pads,
    packets_on, plain_packet,
};
use crate::muxer::stream_read_back::counts;
use crate::packet::parse::{parse_packet_spec, TsPacketView};
use crate::psi::assembler::{
    continued, continued_clean, is_section, joined, lemma_section_reassembles, Assembly,
};

verus! {

/// The sections that a reassembler in state `a` hands out over the packets `ps`.
pub open spec fn collected(a: Assembly, ps: Seq<TsPacketView>) -> Seq<Seq<u8>>
    decreases ps.len(),
{
    if ps.len() == 0 {
        Seq::empty()
    } else {
        let p = ps[0];
        a.gathered(p.payload, p.payload_unit_start, p.continuity_counter).sections + collected(
            a.fed(p.payload, p.payload_unit_start, p.continuity_counter),
            ps.skip(1),
        )
    }
}

/// None of the packets `ps` brings it a section over the limit.
pub open spec fn collected_clean(a: Assembly, ps: Seq<TsPacketView>) -> bool
    decreases ps.len(),
{
    ps.len() == 0 || ({
        let p = ps[0];
        &&& a.gathered(p.payload, p.payload_unit_start, p.continuity_counter).error is None
        &&& collected_clean(
            a.fed(p.payload, p.payload_unit_start, p.continuity_counter),
            ps.skip(1),
        )
    })
}

/// The packets `ps` on PID `pid`, with counters from `cc` on, continue with
/// `chunks`.
pub open spec fn are_chunks(
    ps: Seq<TsPacketView>,
    pid: u16,
    cc: u8,
    chunks: Seq<Seq<u8>>,
) -> bool {
    &&& ps.len() == chunks.len()
    &&& forall|i: int|
        0 <= i < ps.len() ==> {
            &&& plain_packet(#[trigger] ps[i], pid, false, ((cc + i) % 16) as u8)
            &&& ps[i].payload == chunks[i]
        }
}

proof fn lemma_collected_chunks(
    a: Assembly,
    ps: Seq<TsPacketView>,
    pid: u16,
    cc: u8,
    chunks: Seq<Seq<u8>>,
)
    requires
        cc < 16,
        are_chunks(ps, pid, cc, chunks),
    ensures
        collected(a, ps) == continued(a, chunks, cc),
        collected_clean(a, ps) == continued_clean(a, chunks, cc),
    decreases ps.len(),
{
    if ps.len() > 0 {
        let next = ((cc + 1) % 16) as u8;
        assert(plain_packet(ps[0], pid, false, cc));
        assert forall|i: int| 0 <= i < ps.skip(1).len() implies {
            &&& plain_packet(#[trigger] ps.skip(1)[i], pid, false, ((next + i) % 16) as u8)
            &&& ps.skip(1)[i].payload == chunks.skip(1)[i]
        } by {
            assert(ps.skip(1)[i] == ps[i + 1]);
            assert((next + i) % 16 == (cc + (i + 1)) % 16);
        }
        lemma_collected_chunks(a.fed(ps[0].payload, false, cc), ps.skip(1), pid, next, chunks.skip(1));
    }
}

/// The state before the next packet of a section.
pub open spec fn section_ready(f: FlowView, key: u16) -> FlowView {
    let a = f.tb_paced(key, SYS_TB_RX as int);
    if key == SYS_TB_KEY { a.bsys_paced() } else { a }
}

/// One packet of a section is read back.
pub(crate) proof fn lemma_section_step(
    f: FlowView,
    pid: u16,
    slot: Slot,
    key: u16,
    rest: Seq<u8>,
    start: bool,
) -> (p: TsPacketView)
    requires
        pid < 0x1FFF,
        counts(f, slot),
        start || rest.len() > 0,
    ensures
        ({
            let n = psi_take(start, rest.len() as int);
            let b = section_ready(f, key);
            let c = b.put(psi_packet(pid, b.counter(slot), start, rest)).count_table(slot);
            let lead = if start { seq![0u8] } else { Seq::empty() };
            &&& packets_on(c.out, pid) == packets_on(f.out, pid).push(p)
            &&& plain_packet(p, pid, start, f.counter(slot))
            &&& p.payload == lead + rest.take(n) + fill((184 - lead.len() - n) as nat)
            &&& counts(c, slot)
            &&& c.counter(slot) == (f.counter(slot) + 1) % 16
            &&& f.section_put(pid, slot, key, rest, start) == c.section_put(
                pid,
                slot,
                key,
                rest.skip(n),
                false,
            )
        }),
{
    let a = f.tb_paced(key, SYS_TB_RX as int);
    let b = section_ready(f, key);
    lemma_tb_paced_pads(f, key, SYS_TB_RX as int, pid);
    lemma_bsys_paced_pads(a, pid);
    let cc = b.counter(slot);
    assert(cc == f.counter(slot));
    let packet = psi_packet(pid, cc, start, rest);
    lemma_psi_packet_read_back(pid, cc, start, rest);
    lemma_packets_on_put(b.out, packet, pid);
    parse_packet_spec(packet)->Ok_0
}

/// `rest` and some stuffing is what `chunks` join to, and no chunk but the last
/// reaches its end.
pub open spec fn are_shares(chunks: Seq<Seq<u8>>, rest: Seq<u8>, pad: nat) -> bool {
    &&& joined(chunks) == rest + fill(pad)
    &&& rest.len() == 0 ==> chunks.len() == 0 && pad == 0
    &&& chunks.len() > 0 ==> joined(chunks.drop_last()).len() < rest.len()
}

proof fn lemma_shares_grow(first: Seq<u8>, chunks: Seq<Seq<u8>>, rest: Seq<u8>, n: int, pad: nat)
    requires
        0 < n <= rest.len(),
        are_shares(chunks, rest.skip(n), pad),
        first == rest.take(n) + fill((184 - n) as nat),
        n <= 184,
        n < 184 ==> n == rest.len(),
    ensures
        are_shares(
            seq![first] + chunks,
            rest,
            if n == rest.len() { (184 - n) as nat } else { pad },
        ),
{
    let all = seq![first] + chunks;
    assert(all.skip(1) =~= chunks);
    assert(all[0] == first);
    if n == rest.len() {
        reveal_with_fuel(joined, 2);
        assert(joined(all) =~= rest + fill((184 - n) as nat));
        assert(all.drop_last() =~= Seq::empty());
    } else {
        assert(first =~= rest.take(184));
        assert(joined(all) =~= rest + fill(pad));
        assert(chunks.len() > 0) by {
            if chunks.len() == 0 {
                assert(joined(chunks).len() == 0);
            }
        }
        assert(all.drop_last() =~= seq![first] + chunks.drop_last());
        assert(all.drop_last().skip(1) =~= chunks.drop_last());
        assert(all.drop_last()[0] == first);
        assert(joined(all.drop_last()).len() == 184 + joined(chunks.drop_last()).len());
    }
}

/// The rest of a section is read back.
pub(crate) proof fn lemma_section_rest_read_back(
    f: FlowView,
    pid: u16,
    slot: Slot,
    key: u16,
    rest: Seq<u8>,
) -> (r: (Seq<TsPacketView>, Seq<Seq<u8>>, nat))
    requires
        pid < 0x1FFF,
        counts(f, slot),
    ensures
        packets_on(f.section_put(pid, slot, key, rest, false).out, pid) == packets_on(f.out, pid)
            + r.0,
        are_chunks(r.0, pid, f.counter(slot), r.1),
        are_shares(r.1, rest, r.2),
        forall|i: int| 0 <= i < r.0.len() ==> (#[trigger] r.0[i]).payload.len() > 0,
    decreases rest.len(),
{
    if rest.len() == 0 {
        let none = Seq::<TsPacketView>::empty();
        let chunks = Seq::<Seq<u8>>::empty();
        assert(packets_on(f.out, pid) + none =~= packets_on(f.out, pid));
        assert(joined(chunks) =~= rest + fill(0));
        (none, chunks, 0nat)
    } else {
        let p = lemma_section_step(f, pid, slot, key, rest, false);
        let n = psi_take(false, rest.len() as int);
        let b = section_ready(f, key);
        let c = b.put(psi_packet(pid, b.counter(slot), false, rest)).count_table(slot);
        let (more, chunks, pad) = lemma_section_rest_read_back(c, pid, slot, key, rest.skip(n));
        let ps = seq![p] + more;
        let all = seq![p.payload] + chunks;
        assert(p.payload =~= rest.take(n) + fill((184 - n) as nat));
        lemma_shares_grow(p.payload, chunks, rest, n, pad);
        let cc = f.counter(slot);
        assert forall|i: int| 0 <= i < ps.len() implies {
            &&& plain_packet(#[trigger] ps[i], pid, false, ((cc + i) % 16) as u8)
            &&& ps[i].payload == all[i]
        } by {
            if i > 0 {
                assert(ps[i] == more[i - 1]);
                assert(((cc + 1) % 16 + (i - 1)) % 16 == (cc + i) % 16);
            }
        }
        assert(packets_on(f.out, pid).push(p) + more =~= packets_on(f.out, pid) + ps);
        (ps, all, if n == rest.len() { (184 - n) as nat } else { pad })
    }
}

/// A section is read back: a reassembler fed with what comes on its PID hands
/// out the section and nothing else, whatever it had gathered before.
pub proof fn lemma_section_read_back(
    f: FlowView,
    pid: u16,
    slot: Slot,
    key: u16,
    section: Seq<u8>,
    a: Assembly,
) -> (ps: Seq<TsPacketView>)
    requires
        pid < 0x1FFF,
        counts(f, slot),
        is_section(section),
        a.wf(),
    ensures
        packets_on(f.section_put(pid, slot, key, section, true).out, pid) == packets_on(f.out, pid)
            + ps,
        collected(a, ps) == seq![section],
        collected_clean(a, ps),
        forall|i: int| 0 <= i < ps.len() ==> (#[trigger] ps[i]).pid == pid && ps[i].payload.len() > 0,
{
    let p = lemma_section_step(f, pid, slot, key, section, true);
    let n = psi_take(true, section.len() as int);
    let b = section_ready(f, key);
    let cc = f.counter(slot);
    let c = b.put(psi_packet(pid, b.counter(slot), true, section)).count_table(slot);
    let (more, chunks, pad) = lemma_section_rest_read_back(c, pid, slot, key, section.skip(n));
    let ps = seq![p] + more;
    assert(packets_on(f.out, pid).push(p) + more =~= packets_on(f.out, pid) + ps);
    let first = section.take(n) + fill((183 - n) as nat);
    assert(p.payload =~= seq![0u8] + first);
    let stuffing = if n == section.len() { fill((183 - n) as nat) } else { fill(pad) };
    if n == section.len() {
        assert(chunks.len() == 0);
        assert(joined(chunks) =~= Seq::empty());
    } else {
        assert(first =~= section.take(183));
    }
    assert(first + joined(chunks) =~= section + stuffing);
    lemma_section_reassembles(a, first, chunks, stuffing, section, cc);
    let next = ((cc + 1) % 16) as u8;
    lemma_collected_chunks(a.fed(p.payload, true, cc), more, pid, next, chunks);
    assert(ps.skip(1) =~= more);
    assert(ps[0] == p);
    assert forall|i: int| 0 <= i < ps.len() implies (#[trigger] ps[i]).pid == pid
        && ps[i].payload.len() > 0 by {
        if i > 0 {
            assert(ps[i] == more[i - 1]);
        }
    }
    ps
}

} // verus!
