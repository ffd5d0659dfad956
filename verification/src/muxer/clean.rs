//! Every packet that the multiplexer writes keeps the rules on single packets.
use vstd::prelude::*;

use crate::muxer::packets::{
    lemma_field_bytes, lemma_pes_packet_len, null_packet, pcr_field, pcr_packet, pes_packet,
    psi_packet, ts_header, Field,
};
use crate::muxer::read_back::{
    lemma_header_bits, lemma_null_read_back, lemma_pcr_packet_read_back, lemma_pes_packet_read_back,
    lemma_psi_packet_read_back,
};
use crate::packet::parse::{parse_packet_spec, payload_at, TsPacketView};
use crate::packet::round_trip::lemma_packet_carries_adaptation_field;
use crate::validate::discovery::NULL_PID;
use crate::validate::stream::bad_af_length;

verus! {

/// `adaptation_field_control`.
pub open spec fn control_of(b: Seq<u8>) -> u8 {
    (b[3] >> 4) & 3
}

/// A packet that parses as `p` keeps the rules on single packets.
pub open spec fn keeps_rules(b: Seq<u8>, p: TsPacketView) -> bool {
    let afc = control_of(b);
    &&& afc != 0
    &&& (afc & 1 != 0) == (p.payload.len() > 0)
    &&& !p.transport_error
    &&& p.adaptation_field matches Some(af) ==> {
        &&& !bad_af_length(afc, af.length)
        &&& !af.opcr_flag
        &&& af.adaptation_field_extension matches Some(x) ==> x.seamless_splice_flag
            ==> af.splicing_point_flag
    }
}

/// `b` is a packet that keeps the rules on single packets.
pub open spec fn is_clean(b: Seq<u8>) -> bool {
    match parse_packet_spec(b) {
        Ok(p) => keeps_rules(b, p),
        Err(_) => false,
    }
}

proof fn lemma_control(afc: u8, cc: u8)
    by (bit_vector)
    requires
        cc < 16,
        1 <= afc <= 3,
    ensures
        ((((afc << 4) | (cc & 0x0F)) >> 4) & 3) == afc,
        (afc & 1 != 0) == (afc != 2),
{
}

/// A null packet is clean.
pub proof fn lemma_null_clean()
    ensures
        is_clean(null_packet()),
{
    let b = null_packet();
    lemma_null_read_back();
    lemma_control(1, 0);
    lemma_header_bits(NULL_PID, false, 1, 0);
    let head = ts_header(NULL_PID, false, 1, 0);
    assert(b.take(4) =~= head);
    assert(b[0] == head[0] && b[1] == head[1] && b[2] == head[2] && b[3] == head[3]);
}

/// A packet with part of a section is clean.
pub proof fn lemma_psi_clean(pid: u16, cc: u8, start: bool, rest: Seq<u8>)
    requires
        pid < 0x2000,
        cc < 16,
    ensures
        is_clean(psi_packet(pid, cc, start, rest)),
{
    let b = psi_packet(pid, cc, start, rest);
    lemma_psi_packet_read_back(pid, cc, start, rest);
    lemma_control(1, cc);
    assert(b.take(4) =~= ts_header(pid, start, 1, cc));
    assert(b[3] == ts_header(pid, start, 1, cc)[3]);
}

/// A packet with nothing but a clock reference is clean.
pub proof fn lemma_pcr_clean(pid: u16, cc: u8, discontinuity: bool, base: u64, ext: u16)
    requires
        pid < 0x2000,
        cc < 16,
        base <= 0x1_FFFF_FFFF,
        ext <= 0x1FF,
    ensures
        is_clean(pcr_packet(pid, cc, discontinuity, base, ext)),
{
    let b = pcr_packet(pid, cc, discontinuity, base, ext);
    let f = pcr_field(discontinuity, base, ext);
    lemma_pcr_packet_read_back(pid, cc, discontinuity, base, ext);
    lemma_control(2, cc);
    lemma_header_bits(pid, false, 2, cc);
    lemma_field_bytes(f, 184);
    let head = ts_header(pid, false, 2, cc);
    assert(b.take(4) =~= head);
    assert(b[0] == head[0] && b[3] == head[3]);
    let raw = f.bytes(184);
    assert(b.subrange(4, 4 + raw.len() as int) =~= raw);
    lemma_packet_carries_adaptation_field(b, f.as_spec(), Some(184usize));
    assert(payload_at(b) == 188);
    assert(b.subrange(4, 188)[0] == b[4]);
}

/// A packet with part of a PES packet is clean.
pub proof fn lemma_pes_clean(pid: u16, cc: u8, start: bool, f: Field, rest: Seq<u8>)
    requires
        pid < 0x2000,
        cc < 16,
        f.wf(),
        rest.len() > 0,
    ensures
        is_clean(pes_packet(pid, cc, start, f, rest)),
{
    let b = pes_packet(pid, cc, start, f, rest);
    let left = rest.len() as int;
    let afc: u8 = if f.is_bare() && left >= 184 { 1 } else { 3 };
    lemma_pes_packet_read_back(pid, cc, start, f, rest);
    lemma_pes_packet_len(pid, cc, start, f, rest);
    lemma_field_bytes(f, 0);
    lemma_control(afc, cc);
    lemma_header_bits(pid, start, afc, cc);
    let head = ts_header(pid, start, afc, cc);
    assert(b.take(4) =~= head);
    assert(b[0] == head[0] && b[3] == head[3]);
    let p = parse_packet_spec(b)->Ok_0;
    if afc == 3 {
        assert(payload_at(b) <= 187) by {
            assert(p.payload.len() > 0);
        }
        assert(b.subrange(4, payload_at(b))[0] == b[4]);
    }
}

} // verus!
