//! What the model takes from a stream: clock references where they stand, rates between
//! them, header and payload bytes as a parser splits them, and buffers by PID.
use vstd::prelude::*;

use crate::bits::lemma_byte_bits;
use crate::packet::parse::TsPacketView;
use crate::pes::parse::{carries_optional_header, optional_fields_error, parse_pes_spec};
use crate::tstd::arrival::{sampled, Arrivals, PcrSample, Walk};
use crate::tstd::model::{
    multiplexing_room, vbv_headroom, AUDIO_MAIN_BUFFER_SIZE, AUDIO_RX_BPS, BSYS_SIZE, RSYS_MIN_BPS,
    RXSYS_BPS, Route, TB_SIZE, TStdBranch, TStdConfig,
};
use crate::tstd::scan::{
    announced, header_len, is_sized, lemma_runs_tile, pieces, removed_bytes, timestamps_end,
    ByteClass, ClassifiedRun, Scan,
};
use crate::validate::stream::TsStream;

verus! {

/// Sizes and rates that the model fixes: transport buffers of 512 bytes, 1536 bytes of
/// system data, audio at 2 Mbit/s into 3584 bytes, system data at 1 Mbit/s, drained at
/// 80 kbit/s at least.
pub proof fn lemma_fixed_sizes()
    ensures
        TB_SIZE == 512,
        BSYS_SIZE == 1536,
        AUDIO_RX_BPS == 2_000_000,
        AUDIO_MAIN_BUFFER_SIZE == 3584,
        RXSYS_BPS == 1_000_000,
        RSYS_MIN_BPS == 80_000,
{
}

/// The room for multiplexing is 4 ms, and that for overhead 1/750 s, of the bytes at
/// the largest rate, each rounded down.
pub proof fn lemma_room_in_time(rmax_bps: u64)
    ensures
        ({
            let mux = rmax_bps as int / 2000;
            let overhead = rmax_bps as int / 6000;
            &&& multiplexing_room(rmax_bps) == mux + overhead
            &&& 8 * mux * 1000 <= 4 * rmax_bps < 8 * (mux + 1) * 1000
            &&& 8 * overhead * 750 <= rmax_bps < 8 * (overhead + 1) * 750
        }),
{
    assert(rmax_bps as int / 250 / 8 == rmax_bps as int / 2000);
    assert(rmax_bps as int / 750 / 8 == rmax_bps as int / 6000);
}

/// The headroom brings the buffer up to the largest one, and is none where it is that
/// large.
pub proof fn lemma_headroom(most: usize, size: usize)
    ensures
        vbv_headroom(most, size) >= 0,
        size + vbv_headroom(most, size) >= most,
        size + vbv_headroom(most, size) == size || size + vbv_headroom(most, size) == most,
{
}

/// A packet enters the buffers of the first stream on its PID; those for system data
/// only where no stream is on it; none where it is not listed at all.
pub proof fn lemma_routed_by_pid(c: TStdConfig, pid: u16)
    requires
        c.streams@.len() <= usize::MAX,
    ensures
        match c.routes(pid) {
            Route::Stream(i) => i < c.streams@.len() && c.streams@[i as int].0 == pid && forall|
                j: int,
            |
                0 <= j < i ==> (#[trigger] c.streams@[j]).0 != pid,
            Route::System => c.system_pids@.contains(pid) && forall|j: int|
                0 <= j < c.streams@.len() ==> (#[trigger] c.streams@[j]).0 != pid,
            Route::Nowhere => !c.system_pids@.contains(pid) && forall|j: int|
                0 <= j < c.streams@.len() ==> (#[trigger] c.streams@[j]).0 != pid,
        },
{
    lemma_stream_on(c, pid, 0);
}

proof fn lemma_stream_on(c: TStdConfig, pid: u16, from: int)
    requires
        0 <= from <= c.streams@.len(),
    ensures
        match c.stream_on(pid, from) {
            Some(i) => from <= i < c.streams@.len() && c.streams@[i].0 == pid && forall|j: int|
                from <= j < i ==> (#[trigger] c.streams@[j]).0 != pid,
            None => forall|j: int|
                from <= j < c.streams@.len() ==> (#[trigger] c.streams@[j]).0 != pid,
        },
    decreases c.streams@.len() - from,
{
    if from < c.streams@.len() && c.streams@[from].0 != pid {
        lemma_stream_on(c, pid, from + 1);
    }
}

/// Packet `i` has a clock reference on `pid`.
pub open spec fn refers(s: TsStream, pid: u16, i: int) -> bool {
    &&& s.parsed(i) is Some
    &&& s.packet(i).pid == pid
    &&& s.field(i) matches Some(af) && af.pcr_base is Some
}

/// Sample `x` is the clock reference of packet `i`: it stands eleven bytes into the
/// packet, at the last byte of its base, and is 300 times its base and its extension.
pub open spec fn is_reference(s: TsStream, x: PcrSample, i: int) -> bool {
    let af = s.field(i)->0;
    &&& x.pos == 188 * i + 10
    &&& x.pcr == 300 * af.pcr_base->0 + (match af.pcr_extension {
        Some(e) => e as int,
        None => 0,
    })
}

/// The samples are the clock references of the PID, all of them, in their order.
pub proof fn lemma_samples_are_references(s: TsStream, pid: u16, n: nat)
    requires
        188 * n + 10 <= u64::MAX,
        forall|i: int|
            0 <= i < n && refers(s, pid, i) ==> (#[trigger] s.field(i))->0.pcr_base->0
                < 0x2_0000_0000,
    ensures
        ({
            let v = sampled(s, pid, n).samples;
            &&& forall|j: int|
                0 <= j < v.len() ==> {
                    let i = ((#[trigger] v[j]).pos - 10) / 188;
                    &&& 0 <= i < n
                    &&& refers(s, pid, i)
                    &&& is_reference(s, v[j], i)
                }
            &&& forall|i: int|
                0 <= i < n && #[trigger] refers(s, pid, i) ==> exists|j: int|
                    0 <= j < v.len() && is_reference(s, #[trigger] v[j], i)
        }),
    decreases n,
{
    if n > 0 {
        lemma_samples_are_references(s, pid, (n - 1) as nat);
        let u = sampled(s, pid, (n - 1) as nat).samples;
        let v = sampled(s, pid, n).samples;
        let k = n - 1;
        assert(refers(s, pid, k) ==> v.len() == u.len() + 1);
        if refers(s, pid, k) {
            assert(s.field(k)->0.pcr_base->0 < 0x2_0000_0000);
            assert(k * 188 + 10 == 188 * k + 10);
            let x = v.last();
            assert(v == u.push(x));
            assert(is_reference(s, x, k));
            assert((x.pos - 10) / 188 == k);
        } else {
            assert(v == u);
        }
        assert forall|j: int| 0 <= j < v.len() implies {
            let i = ((#[trigger] v[j]).pos - 10) / 188;
            &&& 0 <= i < n
            &&& refers(s, pid, i)
            &&& is_reference(s, v[j], i)
        } by {
            if j < u.len() {
                assert(v[j] == u[j]);
            }
        }
        assert forall|i: int| 0 <= i < n && #[trigger] refers(s, pid, i) implies exists|j: int|
            0 <= j < v.len() && is_reference(s, #[trigger] v[j], i) by {
            if i < k {
                let j = choose|j: int| 0 <= j < u.len() && is_reference(s, #[trigger] u[j], i);
                assert(v[j] == u[j]);
            } else {
                assert(is_reference(s, v[v.len() - 1], i));
            }
        }
    }
}

/// A signalled discontinuity reaches the next reference and no other.
pub proof fn lemma_discontinuity_reaches_next(s: TsStream, pid: u16, n: nat)
    requires
        s.parsed(n as int) is Some,
        s.packet(n as int).pid == pid,
        s.field(n as int) is Some,
    ensures
        ({
            let a = sampled(s, pid, n);
            let b = sampled(s, pid, n + 1);
            let told = a.pending || s.field(n as int)->0.discontinuity_indicator;
            if refers(s, pid, n as int) {
                b.samples.len() == a.samples.len() + 1 && b.samples.last().discontinuity == told
                    && !b.pending
            } else {
                b.samples == a.samples && b.pending == told
            }
        }),
{
}

/// From one reference on to the next: the stretch between them has their distance in
/// bytes, and the clock goes on by the ticks that its rate has; over a new time base
/// the rate before it goes on, and the clock is that of the reference.
pub proof fn lemma_stretch_between(w: Walk, a: PcrSample, b: PcrSample)
    requires
        w.error is None,
        0 <= w.now <= u128::MAX,
        a.pos < b.pos,
    ensures
        ({
            let v = w.step(a, b);
            let x = v.intervals.last();
            v.error is None ==> {
                &&& v.intervals.len() == w.intervals.len() + 1
                &&& v.intervals.drop_last() == w.intervals
                &&& x.start_pos == a.pos
                &&& x.bytes == b.pos - a.pos
                &&& x.pcr == w.now
                &&& x.rebased == b.discontinuity
                &&& !b.discontinuity ==> {
                    &&& x.rate_bytes == x.bytes
                    &&& v.now == w.now + x.rate_ticks
                    &&& 0 < x.rate_ticks < 2_576_980_377_600
                    &&& (v.now - b.pcr) % 2_576_980_377_600 == 0
                    &&& v.rate == Some((x.rate_bytes, x.rate_ticks))
                }
                &&& b.discontinuity ==> {
                    &&& w.rate == Some((x.rate_bytes, x.rate_ticks))
                    &&& v.rate == w.rate
                    &&& v.now == b.pcr
                }
            }
        }),
        w.step(a, b).error is None <==> (b.discontinuity ==> w.rate is Some) && (!b.discontinuity
            ==> (b.pcr - w.now) % 2_576_980_377_600 != 0),
{
    let v = w.step(a, b);
    if v.error is None {
        assert(v.intervals.drop_last() =~= w.intervals);
        if !b.discontinuity {
            let m = 2_576_980_377_600int;
            let d = b.pcr - w.now;
            vstd::arithmetic::div_mod::lemma_fundamental_div_mod(d, m);
            assert(v.now - b.pcr == m * (-(d / m))) by (nonlinear_arith)
                requires
                    v.now == w.now + d % m,
                    d == b.pcr - w.now,
                    d == m * (d / m) + d % m,
            ;
            vstd::arithmetic::div_mod::lemma_mod_multiples_basic(-(d / m), m);
            assert(m * (-(d / m)) == (-(d / m)) * m) by (nonlinear_arith);
        }
    }
}

/// The scan splits a PES packet as a parser does: what it takes for the header is all
/// before the payload, and the decode time it announces is the DTS, or else the PTS.
pub proof fn lemma_scan_splits_as_parser(h: Seq<u8>)
    requires
        parse_pes_spec(h) is Ok,
    ensures
        ({
            let p = parse_pes_spec(h)->Ok_0;
            &&& is_sized(h)
            &&& header_len(h) + p.payload.len() == h.len()
            &&& announced(h) == match p.dts_90k {
                Some(d) => Some(d),
                None => p.pts_90k,
            }
            &&& timestamps_end(h)->0 <= header_len(h)
        }),
{
    let p = parse_pes_spec(h)->Ok_0;
    if carries_optional_header(h[3]) {
        let o = h.subrange(9, 9 + h[8]);
        assert(optional_fields_error(h[7], o) is None);
        lemma_byte_bits(h[7]);
        if p.pts_90k is Some {
            assert(o[0] == h[9] && o[1] == h[10] && o[2] == h[11] && o[3] == h[12] && o[4] == h[13]);
        }
        if p.dts_90k is Some {
            assert(o[5] == h[14] && o[6] == h[15] && o[7] == h[16] && o[8] == h[17] && o[9]
                == h[18]);
        }
    }
}

/// Of a PES packet in one payload, the bytes before its ES data are header and the rest
/// is payload; the first run says when it is to be decoded.
pub proof fn lemma_runs_split_as_parser(s: Scan, h: Seq<u8>, i: int)
    requires
        s.wf(),
        parse_pes_spec(h) is Ok,
        h.len() <= usize::MAX,
        0 <= i < s.opened(true).runs(h).len(),
    ensures
        ({
            let p = parse_pes_spec(h)->Ok_0;
            let r = s.opened(true).runs(h)[i];
            let end = h.len() - p.payload.len();
            &&& r.class == ByteClass::Header || r.class == ByteClass::Payload
            &&& r.class == ByteClass::Header ==> r.offset + r.len <= end
            &&& r.class == ByteClass::Payload ==> r.offset >= end
            &&& r.decode_ts == if i == 0 {
                match p.dts_90k {
                    Some(d) => Some(d),
                    None => p.pts_90k,
                }
            } else {
                None
            }
        }),
{
    lemma_scan_splits_as_parser(h);
    let o = s.opened(true);
    assert(o.seen + h =~= h);
    lemma_runs_tile(o, h);
}

/// The first run of a packet is all before its payload, and no buffer but the transport
/// buffer sees it.
pub proof fn lemma_overhead_first(s: Scan, p: TsPacketView)
    requires
        p.payload.len() <= 188,
    ensures
        ({
            let r = pieces(s, p)[0];
            &&& r.class == ByteClass::Overhead
            &&& r.offset == 0
            &&& r.len == 188 - p.payload.len()
            &&& r.decode_ts is None
        }),
{
}

/// What an access unit takes out of its buffer: payload always, headers only where the
/// buffer holds them, which is so of a main buffer and not of a video buffer.
pub proof fn lemma_removed_by_class(branch: TStdBranch, run: ClassifiedRun)
    ensures
        run.class == ByteClass::Payload ==> removed_bytes(branch, run) == run.len,
        run.class == ByteClass::Overhead ==> removed_bytes(branch, run) == 0,
        run.class == ByteClass::Header && branch is Main ==> removed_bytes(branch, run) == run.len,
        run.class == ByteClass::Header && branch is Video ==> removed_bytes(branch, run) == 0,
{
}

/// The stretch that a byte falls in starts at it or before it, and the next one after it.
pub proof fn lemma_stretch_holds_byte(c: Arrivals, pos: u64, to: int)
    requires
        c.wf(),
        c.reaches(pos, to),
        c.intervals[c.cursor].start_pos <= pos,
    ensures
        c.cursor <= to < c.intervals.len(),
        c.intervals[to].start_pos <= pos,
        to + 1 < c.intervals.len() ==> pos < c.intervals[to + 1].start_pos,
{
    if to > c.cursor {
        assert(c.intervals[to].start_pos <= pos);
    }
}

/// A payload that starts a unit starts a PES packet anew, whatever came before; one that
/// does not goes on, and before the first start it is nothing.
pub proof fn lemma_start_opens(s: Scan, payload: Seq<u8>)
    ensures
        s.opened(true).started && s.opened(true).sizing && s.opened(true).seen.len() == 0,
        s.opened(false) == s,
        Scan::idle().opened(false).runs(payload).len() == 0,
        Scan::idle().opened(false).continued(payload) == Scan::idle(),
{
}

} // verus!
