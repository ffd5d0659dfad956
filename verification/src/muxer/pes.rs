//! The PES packets of one frame.
use vstd::prelude::*;

use crate::error::TsError;
use crate::muxer::config::MuxPacket;
use crate::pes::encode::PesHeaderSpec;

verus! {

/// The wire value of a timestamp: its low 33 bits.
pub open spec fn ring(t: i64) -> u64 {
    (t as u64) & 0x1_FFFF_FFFF
}

/// The wire value of a timestamp that may be missing.
pub open spec fn ring_of(t: Option<i64>) -> Option<u64> {
    match t {
        Some(x) => Some(ring(x)),
        None => None,
    }
}

/// The wire value of a timestamp: its low 33 bits.
pub(crate) fn to_ring(t: i64) -> (r: u64)
    ensures
        r == ring(t),
        r <= 0x1_FFFF_FFFF,
{
    proof {
        lemma_ring_bound(t);
    }
    let u: u64 = #[verifier::truncate] (t as u64);
    u & 0x1_FFFF_FFFF
}

fn to_ring_of(t: Option<i64>) -> (r: Option<u64>)
    ensures
        r == ring_of(t),
{
    match t {
        Some(x) => Some(to_ring(x)),
        None => None,
    }
}

/// The header of a frame's first PES packet: the timestamps, a DTS only where it
/// differs, and the unbounded length form for video.
pub open spec fn first_header(stream_id: u8, pts: Option<i64>, dts: Option<i64>) -> PesHeaderSpec {
    PesHeaderSpec::timestamps_only(
        stream_id,
        ring_of(pts),
        if ring_of(dts) != ring_of(pts) { ring_of(dts) } else { None },
        0xE0 <= stream_id <= 0xEF,
    )
}

/// The header of a frame's further PES packets.
pub open spec fn next_header(stream_id: u8) -> PesHeaderSpec {
    PesHeaderSpec::timestamps_only(stream_id, None, None, false)
}

/// Largest payload of a bounded PES packet with header `h`.
pub open spec fn payload_limit(h: PesHeaderSpec) -> int {
    0xFFFF - 3 - (match (h.pts_90k, h.dts_90k) {
        (Some(_), Some(_)) => 10int,
        (Some(_), None) => 5,
        _ => 0,
    })
}

/// The further PES packets for the rest `data` of a frame.
pub open spec fn next_packets(stream_id: u8, data: Seq<u8>) -> Seq<Seq<u8>>
    decreases data.len(),
{
    if data.len() == 0 {
        Seq::empty()
    } else if data.len() <= 0xFFFC {
        seq![next_header(stream_id).encoded(data)]
    } else {
        seq![next_header(stream_id).encoded(data.take(0xFFFC))] + next_packets(
            stream_id,
            data.skip(0xFFFC),
        )
    }
}

/// How much of a frame goes into its first PES packet.
pub open spec fn first_len(h: PesHeaderSpec, n: int) -> int {
    if h.unbounded_length || n <= payload_limit(h) { n } else { payload_limit(h) }
}

/// The PES packets of a frame. A frame that is too long for a bounded packet
/// goes on in further ones without timestamps.
pub open spec fn frame_packets(
    stream_id: u8,
    pts: Option<i64>,
    dts: Option<i64>,
    data: Seq<u8>,
) -> Seq<Seq<u8>> {
    let h = first_header(stream_id, pts, dts);
    let n = first_len(h, data.len() as int);
    seq![h.encoded(data.take(n))] + next_packets(stream_id, data.skip(n))
}

/// Why a frame has no PES packets: the first header is refused.
pub open spec fn frame_error(stream_id: u8, pts: Option<i64>, dts: Option<i64>, n: int) -> Option<
    &'static str,
> {
    let h = first_header(stream_id, pts, dts);
    h.error(first_len(h, n))
}

/// The stream identifiers that the multiplexer gives out.
pub open spec fn is_mux_stream_id(stream_id: u8) -> bool {
    stream_id == 0xE0 || stream_id == 0xBD
}

/// Build the PES packets of a frame.
pub fn build_pes(stream_id: u8, packet: &MuxPacket) -> (r: Result<Vec<Vec<u8>>, TsError>)
    ensures
        match frame_error(stream_id, packet.pts, packet.dts, packet.data@.len() as int) {
            Some(what) => r == Err::<Vec<Vec<u8>>, TsError>(TsError::InvalidField { what }),
            None => r is Ok && crate::psi::assembler::bytes_of(r->Ok_0@) == frame_packets(
                stream_id,
                packet.pts,
                packet.dts,
                packet.data@,
            ) && r->Ok_0@.len() > 0,
        },
{
    let data: &[u8] = packet.data.as_slice();
    let pts: Option<u64> = to_ring_of(packet.pts);
    let dts: Option<u64> = to_ring_of(packet.dts);
    let same: bool = match (pts, dts) {
        (Some(a), Some(b)) => a == b,
        (None, None) => true,
        _ => false,
    };
    let mut first: PesHeaderSpec = PesHeaderSpec::default();
    first.stream_id = stream_id;
    first.pts_90k = pts;
    first.dts_90k = if same { None } else { dts };
    first.unbounded_length = stream_id >= 0xE0 && stream_id <= 0xEF;
    let ghost h = first_header(stream_id, packet.pts, packet.dts);
    assert(first == h);
    let opt: usize = match (first.pts_90k, first.dts_90k) {
        (Some(_), Some(_)) => 10,
        (Some(_), None) => 5,
        _ => 0,
    };
    let limit: usize = 0xFFFF - 3 - opt;
    let n: usize = if first.unbounded_length || data.len() <= limit { data.len() } else { limit };
    assert(n == first_len(h, data@.len() as int));
    let head: &[u8] = &data[0..n];
    assert(head@ =~= data@.take(n as int));
    let mut out: Vec<Vec<u8>> = Vec::new();
    out.push(first.encode(head)?);
    let ghost lead = crate::psi::assembler::bytes_of(out@);
    assert(lead =~= seq![h.encoded(data@.take(n as int))]);
    let mut next: PesHeaderSpec = PesHeaderSpec::default();
    next.stream_id = stream_id;
    assert(next == next_header(stream_id));
    let mut at: usize = n;
    proof {
        assert(lead + next_packets(stream_id, data@.skip(n as int)) =~= frame_packets(
            stream_id,
            packet.pts,
            packet.dts,
            data@,
        ));
    }
    while at < data.len()
        invariant
            at <= data@.len(),
            next == next_header(stream_id),
            out@.len() > 0,
            data@ == packet.data@,
            frame_error(stream_id, packet.pts, packet.dts, packet.data@.len() as int) is None,
            frame_packets(stream_id, packet.pts, packet.dts, data@)
                == crate::psi::assembler::bytes_of(out@) + next_packets(
                stream_id,
                data@.skip(at as int),
            ),
        decreases data@.len() - at,
    {
        let left: usize = data.len() - at;
        let k: usize = if left <= 0xFFFC { left } else { 0xFFFC };
        let chunk: &[u8] = &data[at..at + k];
        let ghost rest = data@.skip(at as int);
        proof {
            lemma_next_header_fits(stream_id, k as int);
            assert(chunk@ =~= rest.take(k as int));
        }
        let pkt: Vec<u8> = match next.encode(chunk) {
            Ok(p) => p,
            Err(e) => {
                return Err(e);
            },
        };
        let ghost before = crate::psi::assembler::bytes_of(out@);
        out.push(pkt);
        proof {
            assert(crate::psi::assembler::bytes_of(out@) =~= before + seq![pkt@]);
            assert(rest.skip(k as int) =~= data@.skip(at + k));
            if left <= 0xFFFC {
                assert(rest.take(k as int) =~= rest);
                assert(next_packets(stream_id, data@.skip(at + k)) =~= Seq::empty());
            }
            assert(before + next_packets(stream_id, rest) =~= crate::psi::assembler::bytes_of(out@)
                + next_packets(stream_id, data@.skip(at + k)));
        }
        at = at + k;
    }
    assert(next_packets(stream_id, data@.skip(at as int)) =~= Seq::empty());
    assert(crate::psi::assembler::bytes_of(out@) + Seq::<Seq<u8>>::empty()
        =~= crate::psi::assembler::bytes_of(out@));
    Ok(out)
}

/// A bounded packet without timestamps holds up to 65532 payload bytes.
pub(crate) proof fn lemma_next_header_fits(stream_id: u8, k: int)
    requires
        0 <= k <= 0xFFFC,
    ensures
        next_header(stream_id).error(k) is None,
{
    let h = next_header(stream_id);
    assert(h.plain_fields() =~= Seq::empty());
    assert(h.optional_fields() =~= Seq::empty());
}

/// A wire timestamp has 33 bits.
pub proof fn lemma_ring_bound(t: i64)
    ensures
        ring(t) <= 0x1_FFFF_FFFF,
{
    let u = t as u64;
    assert(u & 0x1_FFFF_FFFF <= 0x1_FFFF_FFFF) by (bit_vector);
}

/// A frame is refused for a DTS without PTS, and for nothing else.
pub proof fn lemma_frame_refused(stream_id: u8, pts: Option<i64>, dts: Option<i64>, n: int)
    requires
        is_mux_stream_id(stream_id),
        n >= 0,
    ensures
        frame_error(stream_id, pts, dts, n) == (if pts is None && dts is Some {
            Some("DTS without PTS")
        } else {
            None
        }),
{
    let h = first_header(stream_id, pts, dts);
    if pts is Some {
        lemma_ring_bound(pts->0);
    }
    if dts is Some {
        lemma_ring_bound(dts->0);
    }
    assert(h.optional_fields().len() == h.timestamp_bytes().len());
}

} // verus!
