//! Which bytes of a stream's packets are PES headers, which are payload, and
//! where a decode time is announced.
use vstd::prelude::*;

use crate::packet::parse::{read_ts33_at, ts33_at, TsPacket, TsPacketView, TS_PACKET_LEN};
use crate::pes::has_optional_pes_header;
use crate::pes::parse::carries_optional_header;
use crate::tstd::model::TStdBranch;

verus! {

/// Class of a byte of a packet.
#[derive(Debug, Clone, Copy, PartialEq, Eq, Structural)]
pub enum ByteClass {
    /// Packet header and adaptation field.
    Overhead,
    /// PES packet header.
    Header,
    /// PES payload.
    Payload,
}

/// Bytes of one class that stand together.
#[derive(Debug, Clone, Copy, PartialEq, Eq, Structural)]
pub struct ClassifiedRun {
    /// Where they start.
    pub offset: usize,
    /// How many they are.
    pub len: usize,
    /// Their class.
    pub class: ByteClass,
    /// The decode time (90 kHz, 33 bits) announced by the header whose
    /// timestamps end here: the DTS where there is one, else the PTS.
    pub decode_ts: Option<u64>,
}

/// Follower of the PES packets of one PID.
#[derive(Debug, Clone)]
pub struct PesScanner {
    started: bool,
    sizing: bool,
    seen: Vec<u8>,
    pending: usize,
}

/// The state of a [`PesScanner`].
#[verifier::ext_equal]
pub struct Scan {
    /// A PES packet has started.
    pub started: bool,
    /// The timestamps of its header are not complete.
    pub sizing: bool,
    /// Its bytes up to the last timestamp, as far as they have come.
    pub seen: Seq<u8>,
    /// Header bytes still to come after the timestamps.
    pub pending: nat,
}

/// Bytes that the timestamps take, by the second flags byte.
pub open spec fn timestamp_room(flags: u8) -> int {
    if flags >> 6 == 2 {
        5
    } else if flags >> 6 == 3 {
        10
    } else {
        0
    }
}

/// Where the timestamps of a PES packet with first bytes `h` end, if `h` tells.
pub open spec fn timestamps_end(h: Seq<u8>) -> Option<int> {
    if h.len() < 6 {
        None
    } else if !carries_optional_header(h[3]) {
        Some(6)
    } else if h.len() < 9 {
        None
    } else if h[8] < timestamp_room(h[7]) {
        Some(9 + h[8] as int)
    } else {
        Some(9 + timestamp_room(h[7]))
    }
}

/// `h` holds the timestamps, or their absence.
pub open spec fn is_sized(h: Seq<u8>) -> bool {
    timestamps_end(h) matches Some(m) && m <= h.len()
}

/// Length of the header that starts with `h`.
pub open spec fn header_len(h: Seq<u8>) -> int {
    if carries_optional_header(h[3]) { 9 + h[8] as int } else { 6 }
}

/// The decode time that the header announces.
pub open spec fn announced(h: Seq<u8>) -> Option<u64> {
    if !carries_optional_header(h[3]) {
        None
    } else if h[7] >> 6 == 2 && h[8] >= 5 {
        Some(ts33_at(h, 9))
    } else if h[7] >> 6 == 3 && h[8] >= 10 {
        Some(ts33_at(h, 14))
    } else {
        None
    }
}

/// The runs of the bytes from `at` to `len`, of which the first `pending` are
/// header.
pub open spec fn plain_runs(pending: nat, at: int, len: int) -> Seq<ClassifiedRun> {
    let left = len - at;
    let take = if pending < left { pending as int } else { left };
    (if take > 0 {
        seq![
            ClassifiedRun {
                offset: at as usize,
                len: take as usize,
                class: ByteClass::Header,
                decode_ts: None,
            },
        ]
    } else {
        Seq::empty()
    }) + (if left > take {
        seq![
            ClassifiedRun {
                offset: (at + take) as usize,
                len: (left - take) as usize,
                class: ByteClass::Payload,
                decode_ts: None,
            },
        ]
    } else {
        Seq::empty()
    })
}

/// What is left of `pending` after `n` bytes.
pub open spec fn less(pending: nat, n: int) -> nat {
    if pending > n { (pending - n) as nat } else { 0 }
}

impl Scan {
    /// Before any packet.
    pub open spec fn idle() -> Scan {
        Scan { started: false, sizing: false, seen: Seq::empty(), pending: 0 }
    }

    /// Timestamps that have all come are not waited for.
    pub open spec fn wf(self) -> bool {
        self.sizing ==> self.started && self.pending == 0 && !is_sized(self.seen)
    }

    /// The state that a payload meets.
    pub open spec fn opened(self, pusi: bool) -> Scan {
        if pusi {
            Scan { started: true, sizing: true, seen: Seq::empty(), pending: 0 }
        } else {
            self
        }
    }

    /// The state after a payload within one PES packet.
    pub open spec fn continued(self, payload: Seq<u8>) -> Scan {
        if !self.started {
            self
        } else if self.sizing {
            let h = self.seen + payload;
            if is_sized(h) {
                let m = timestamps_end(h)->0;
                Scan {
                    sizing: false,
                    seen: h.take(m),
                    pending: less((header_len(h) - m) as nat, h.len() - m),
                    ..self
                }
            } else {
                Scan { seen: h, ..self }
            }
        } else {
            Scan { pending: less(self.pending, payload.len() as int), ..self }
        }
    }

    /// The runs of a payload within one PES packet.
    pub open spec fn runs(self, payload: Seq<u8>) -> Seq<ClassifiedRun> {
        let n = payload.len() as int;
        if !self.started || n == 0 {
            Seq::empty()
        } else if self.sizing {
            let h = self.seen + payload;
            if is_sized(h) {
                let m = timestamps_end(h)->0;
                let k = m - self.seen.len();
                seq![
                    ClassifiedRun {
                        offset: 0,
                        len: k as usize,
                        class: ByteClass::Header,
                        decode_ts: announced(h),
                    },
                ] + plain_runs((header_len(h) - m) as nat, k, n)
            } else {
                seq![
                    ClassifiedRun {
                        offset: 0,
                        len: n as usize,
                        class: ByteClass::Header,
                        decode_ts: None,
                    },
                ]
            }
        } else {
            plain_runs(self.pending, 0, n)
        }
    }
}

impl View for PesScanner {
    type V = Scan;

    closed spec fn view(&self) -> Scan {
        Scan {
            started: self.started,
            sizing: self.sizing,
            seen: self.seen@,
            pending: self.pending as nat,
        }
    }
}

/// Append the runs of a stretch whose first `pending` bytes are header.
fn push_plain_runs(out: &mut Vec<ClassifiedRun>, pending: usize, at: usize, len: usize)
    requires
        at <= len,
    ensures
        final(out)@ == old(out)@ + plain_runs(pending as nat, at as int, len as int),
{
    let left: usize = len - at;
    let take: usize = if pending < left { pending } else { left };
    if take > 0 {
        out.push(
            ClassifiedRun { offset: at, len: take, class: ByteClass::Header, decode_ts: None },
        );
    }
    if left > take {
        out.push(
            ClassifiedRun {
                offset: at + take,
                len: left - take,
                class: ByteClass::Payload,
                decode_ts: None,
            },
        );
    }
    assert(out@ =~= old(out)@ + plain_runs(pending as nat, at as int, len as int));
}

/// Whether `h` holds the timestamps of the PES packet that it starts.
fn holds_timestamps(h: &Vec<u8>) -> (r: bool)
    ensures
        r == is_sized(h@),
{
    let n: usize = h.len();
    if n < 6 {
        return false;
    }
    if !has_optional_pes_header(h[3]) {
        return true;
    }
    if n < 9 {
        return false;
    }
    let length: usize = h[8] as usize;
    let form: u8 = h[7] >> 6;
    let room: usize = if form == 2 {
        5
    } else if form == 3 {
        10
    } else {
        0
    };
    n >= 9 + (if length < room { length } else { room })
}

/// The decode time announced by a header whose timestamps are in `h`.
fn announced_in(h: &Vec<u8>) -> (r: Option<u64>)
    requires
        is_sized(h@),
    ensures
        r == announced(h@),
{
    if !has_optional_pes_header(h[3]) {
        return None;
    }
    let length: u8 = h[8];
    let form: u8 = h[7] >> 6;
    if form == 2 && length >= 5 {
        Some(read_ts33_at(h.as_slice(), 9))
    } else if form == 3 && length >= 10 {
        Some(read_ts33_at(h.as_slice(), 14))
    } else {
        None
    }
}

impl Default for PesScanner {
    fn default() -> (r: Self)
        ensures
            r@ == Scan::idle(),
    {
        PesScanner { started: false, sizing: false, seen: Vec::new(), pending: 0 }
    }
}

impl PesScanner {
    /// Gather header bytes until the timestamps are complete; how many bytes of
    /// `payload` that took.
    fn gather(&mut self, payload: &[u8]) -> (k: usize)
        requires
            old(self)@.wf(),
            old(self)@.sizing,
        ensures
            final(self)@.started == old(self)@.started,
            final(self)@.pending == old(self)@.pending,
            k <= payload@.len(),
            final(self)@.seen == old(self)@.seen + payload@.take(k as int),
            !final(self)@.sizing == is_sized(old(self)@.seen + payload@),
            is_sized(old(self)@.seen + payload@) ==> old(self)@.seen.len() + k == timestamps_end(
                old(self)@.seen + payload@,
            )->0,
            !is_sized(old(self)@.seen + payload@) ==> k == payload@.len(),
    {
        let ghost h = self.seen@ + payload@;
        let ghost from = self.seen@.len() as int;
        let mut pos: usize = 0;
        while pos < payload.len() && self.sizing
            invariant
                pos <= payload@.len(),
                from == old(self)@.seen.len(),
                h == old(self)@.seen + payload@,
                self.seen@ == h.take(from + pos),
                self.sizing == !is_sized(h.take(from + pos)),
                !self.sizing ==> pos > 0 && !is_sized(h.take(from + pos - 1)),
                self.started == old(self).started,
                self.pending == old(self).pending,
            decreases payload@.len() - pos,
        {
            self.seen.push(payload[pos]);
            assert(self.seen@ =~= h.take(from + pos + 1));
            assert(h.take(from + pos + 1).len() == from + pos + 1);
            pos += 1;
            if holds_timestamps(&self.seen) {
                self.sizing = false;
            }
        }
        proof {
            assert(old(self)@.seen + payload@.take(pos as int) =~= h.take(from + pos));
            if !self.sizing {
                lemma_sized_prefix(h, from + pos);
                lemma_sized_prefix(h, from + pos - 1);
            } else {
                assert(h.take(from + pos) =~= h);
            }
        }
        pos
    }

    /// Classify the payload of one packet; `pusi` marks the start of a PES
    /// packet. Nothing is classified before the first start.
    pub fn feed(&mut self, payload: &[u8], pusi: bool, out: &mut Vec<ClassifiedRun>)
        requires
            old(self)@.wf(),
        ensures
            final(self)@.wf(),
            final(self)@ == old(self)@.opened(pusi).continued(payload@),
            final(out)@ == old(self)@.opened(pusi).runs(payload@),
    {
        out.clear();
        if pusi {
            self.pending = 0;
            self.seen = Vec::new();
            self.sizing = true;
            self.started = true;
            assert(self@ =~= old(self)@.opened(pusi));
        }
        if !self.started || payload.len() == 0 {
            proof {
                if payload@.len() == 0 {
                    assert(self@.seen + payload@ =~= self@.seen);
                }
            }
            return ;
        }
        let ghost s = self@;
        if self.sizing {
            let ghost h = s.seen + payload@;
            let k: usize = self.gather(payload);
            if self.sizing {
                assert(s.seen + payload@.take(k as int) =~= h);
                out.push(
                    ClassifiedRun {
                        offset: 0,
                        len: payload.len(),
                        class: ByteClass::Header,
                        decode_ts: None,
                    },
                );
                assert(out@ =~= s.runs(payload@));
                return ;
            }
            proof {
                assert(s.seen + payload@.take(k as int) =~= h.take(s.seen.len() + k));
                lemma_sized_prefix(h, s.seen.len() + k);
            }
            out.push(
                ClassifiedRun {
                    offset: 0,
                    len: k,
                    class: ByteClass::Header,
                    decode_ts: announced_in(&self.seen),
                },
            );
            let total: usize = if has_optional_pes_header(self.seen[3]) {
                9 + self.seen[8] as usize
            } else {
                6
            };
            let pending: usize = total - self.seen.len();
            push_plain_runs(out, pending, k, payload.len());
            let left: usize = payload.len() - k;
            self.pending = if pending > left { pending - left } else { 0 };
            assert(self@ =~= s.continued(payload@));
            assert(out@ =~= s.runs(payload@));
        } else {
            push_plain_runs(out, self.pending, 0, payload.len());
            self.pending = if self.pending > payload.len() {
                self.pending - payload.len()
            } else {
                0
            };
            assert(self@ =~= s.continued(payload@));
            assert(out@ =~= s.runs(payload@));
        }
    }
}

/// `r`, `by` bytes further on.
pub open spec fn moved(r: ClassifiedRun, by: int) -> ClassifiedRun {
    ClassifiedRun { offset: (r.offset + by) as usize, ..r }
}

/// The runs of a whole packet: what precedes the payload, and the runs of the
/// payload. A packet without payload is overhead throughout.
pub open spec fn pieces(s: Scan, p: TsPacketView) -> Seq<ClassifiedRun> {
    let at = 188 - p.payload.len();
    seq![
        ClassifiedRun {
            offset: 0,
            len: at as usize,
            class: ByteClass::Overhead,
            decode_ts: None,
        },
    ] + s.opened(p.payload_unit_start).runs(p.payload).map_values(
        |r: ClassifiedRun| moved(r, at),
    )
}

/// Split a packet into runs and carry the scan on over it. A packet without
/// payload leaves the scan alone.
pub fn packet_pieces(scanner: &mut PesScanner, pkt: &TsPacket<'_>) -> (r: Vec<ClassifiedRun>)
    requires
        old(scanner)@.wf(),
        pkt@.payload.len() <= 188,
    ensures
        final(scanner)@.wf(),
        final(scanner)@ == (if pkt@.payload.len() == 0 {
            old(scanner)@
        } else {
            old(scanner)@.opened(pkt@.payload_unit_start).continued(pkt@.payload)
        }),
        r@ == (if pkt@.payload.len() == 0 {
            seq![
                ClassifiedRun {
                    offset: 0,
                    len: 188,
                    class: ByteClass::Overhead,
                    decode_ts: None,
                },
            ]
        } else {
            pieces(old(scanner)@, pkt@)
        }),
{
    let at: usize = TS_PACKET_LEN - pkt.payload.len();
    let mut out: Vec<ClassifiedRun> = Vec::new();
    out.push(
        ClassifiedRun { offset: 0, len: at, class: ByteClass::Overhead, decode_ts: None },
    );
    if pkt.payload.len() == 0 {
        assert(out@ =~= seq![
            ClassifiedRun {
                offset: 0,
                len: 188,
                class: ByteClass::Overhead,
                decode_ts: None,
            },
        ]);
        return out;
    }
    let ghost s = scanner@.opened(pkt@.payload_unit_start);
    let mut runs: Vec<ClassifiedRun> = Vec::new();
    scanner.feed(pkt.payload, pkt.payload_unit_start, &mut runs);
    proof {
        if s.started {
            lemma_runs_tile(s, pkt@.payload);
        }
    }
    let ghost head = out@;
    let mut i: usize = 0;
    while i < runs.len()
        invariant
            i <= runs@.len(),
            at <= 188,
            runs@ == s.runs(pkt@.payload),
            forall|j: int| 0 <= j < runs@.len() ==> #[trigger] runs@[j].offset <= 188,
            out@ =~= head + runs@.take(i as int).map_values(
                |r: ClassifiedRun| moved(r, at as int),
            ),
        decreases runs@.len() - i,
    {
        let run: ClassifiedRun = runs[i];
        out.push(ClassifiedRun { offset: run.offset + at, ..run });
        proof {
            assert(runs@.take(i + 1) =~= runs@.take(i as int).push(runs@[i as int]));
        }
        i += 1;
    }
    assert(runs@.take(runs@.len() as int) =~= runs@);
    assert(out@ =~= pieces(old(scanner)@, pkt@));
    out
}

/// Bytes of `run` that an access unit removes from its buffer: the main buffer
/// holds PES headers too, the elementary-stream buffer only payload.
pub open spec fn removed_bytes(branch: TStdBranch, run: ClassifiedRun) -> usize {
    match (branch, run.class) {
        (_, ByteClass::Overhead) => 0,
        (TStdBranch::Video { .. }, ByteClass::Header) => 0,
        _ => run.len,
    }
}

impl ClassifiedRun {
    /// Bytes of the run that an access unit removes from its buffer.
    pub fn removed_from(&self, branch: &TStdBranch) -> (r: usize)
        ensures
            r == removed_bytes(*branch, *self),
    {
        match (branch, self.class) {
            (_, ByteClass::Overhead) => 0,
            (TStdBranch::Video { .. }, ByteClass::Header) => 0,
            _ => self.len,
        }
    }
}

/// The runs of a payload stand one after the other, leave out no byte of it, and
/// hold at least one byte each.
pub proof fn lemma_runs_tile(s: Scan, payload: Seq<u8>)
    requires
        s.wf(),
        s.started,
        payload.len() <= usize::MAX,
    ensures
        forall|i: int|
            0 <= i < s.runs(payload).len() ==> #[trigger] s.runs(payload)[i].len > 0
                && s.runs(payload)[i].offset + s.runs(payload)[i].len <= payload.len(),
        forall|i: int|
            0 <= i < s.runs(payload).len() - 1 ==> s.runs(payload)[i + 1].offset == #[trigger] s.runs(
                payload,
            )[i].offset + s.runs(payload)[i].len,
        payload.len() > 0 ==> s.runs(payload).len() > 0 && s.runs(payload)[0].offset == 0
            && s.runs(payload).last().offset + s.runs(payload).last().len == payload.len(),
{
    let h = s.seen + payload;
    if s.sizing && payload.len() > 0 {
        lemma_sized_prefix(h, s.seen.len() as int);
        assert(h.take(s.seen.len() as int) =~= s.seen);
        if is_sized(h) {
            let m = timestamps_end(h)->0;
            lemma_sized_prefix(h, m);
            assert(plain_runs((header_len(h) - m) as nat, m - s.seen.len(), payload.len() as int).len()
                <= 2);
        }
    }
}

/// Where a PES header is cut between packets does not matter: two payloads of a
/// PES packet leave the scan where their concatenation leaves it.
pub proof fn lemma_cut_anywhere(s: Scan, a: Seq<u8>, b: Seq<u8>)
    requires
        s.wf(),
    ensures
        s.continued(a).continued(b) == s.continued(a + b),
{
    let h = s.seen + a;
    let whole = s.seen + (a + b);
    assert(h + b =~= whole);
    if s.started && s.sizing {
        assert(whole.take(h.len() as int) =~= h);
        lemma_sized_prefix(whole, h.len() as int);
        if is_sized(h) {
            let m = timestamps_end(h)->0;
            lemma_sized_prefix(h, m);
            assert(whole.take(m) =~= h.take(m));
        }
    }
    assert(s.continued(a).continued(b) =~= s.continued(a + b));
}

/// A PES header announces its decode time exactly once, in the payload that
/// completes its timestamps, however it is cut.
pub proof fn lemma_announced_once(s: Scan, a: Seq<u8>, b: Seq<u8>)
    requires
        s.wf(),
        s.started,
        s.sizing,
        is_sized(s.seen + a),
        a.len() > 0,
        a.len() + b.len() <= usize::MAX,
    ensures
        s.runs(a)[0].decode_ts == announced(s.seen + a),
        s.runs(a + b)[0].decode_ts == announced(s.seen + a),
        forall|i: int|
            0 <= i < s.continued(a).runs(b).len() ==> (#[trigger] s.continued(a).runs(
                b,
            )[i]).decode_ts is None,
{
    let h = s.seen + a;
    let whole = s.seen + (a + b);
    assert(whole.take(h.len() as int) =~= h);
    lemma_sized_prefix(whole, h.len() as int);
}

/// A prefix tells where the timestamps end exactly as the whole does, once it
/// reaches that far; and what it tells of the header is the same.
pub proof fn lemma_sized_prefix(h: Seq<u8>, n: int)
    requires
        0 <= n <= h.len(),
    ensures
        is_sized(h.take(n)) ==> is_sized(h) && timestamps_end(h.take(n)) == timestamps_end(h)
            && header_len(h.take(n)) == header_len(h) && announced(h.take(n)) == announced(h)
            && header_len(h) >= timestamps_end(h)->0,
        is_sized(h) ==> is_sized(h.take(n)) == (n >= timestamps_end(h)->0),
{
    let p = h.take(n);
    assert(forall|i: int| 0 <= i < n ==> p[i] == h[i]);
}

} // verus!
