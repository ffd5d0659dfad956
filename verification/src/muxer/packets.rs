//! The single packets that the multiplexer writes.
use vstd::prelude::*;

use crate::packet::encode::{wanted, AdaptationFieldExtensionSpec, AdaptationFieldSpec};
use crate::validate::discovery::NULL_PID;

verus! {

/// The four header bytes of a packet.
pub open spec fn ts_header(pid: u16, start: bool, afc: u8, cc: u8) -> Seq<u8> {
    seq![
        0x47u8,
        (if start { 0x40u8 } else { 0 }) | (((pid >> 8) & 0x1F) as u8),
        (pid & 0xFF) as u8,
        (afc << 4) | (cc & 0x0F),
    ]
}

fn push_header(out: &mut Vec<u8>, pid: u16, start: bool, afc: u8, cc: u8)
    requires
        afc <= 3,
    ensures
        final(out)@ == old(out)@ + ts_header(pid, start, afc, cc),
{
    out.push(0x47);
    out.push((if start { 0x40u8 } else { 0 }) | (((pid >> 8) & 0x1F) as u8));
    out.push((pid & 0xFF) as u8);
    out.push((afc << 4) | (cc & 0x0F));
    assert(out@ =~= old(out)@ + ts_header(pid, start, afc, cc));
}

/// `n` stuffing bytes.
pub open spec fn fill(n: nat) -> Seq<u8> {
    Seq::new(n, |i: int| 0xFFu8)
}

fn push_fill(out: &mut Vec<u8>, n: usize)
    ensures
        final(out)@ == old(out)@ + fill(n as nat),
{
    let mut i: usize = 0;
    assert(out@ =~= old(out)@ + fill(0));
    while i < n
        invariant
            i <= n,
            out@ == old(out)@ + fill(i as nat),
        decreases n - i,
    {
        out.push(0xFF);
        i += 1;
        assert(out@ =~= old(out)@ + fill(i as nat));
    }
}

/// A null packet.
pub open spec fn null_packet() -> Seq<u8> {
    ts_header(NULL_PID, false, 1, 0) + fill(184)
}

/// Append a null packet.
pub(crate) fn push_null(out: &mut Vec<u8>)
    ensures
        final(out)@ == old(out)@ + null_packet(),
        final(out)@.len() == old(out)@.len() + 188,
{
    push_header(out, NULL_PID, false, 1, 0);
    push_fill(out, 184);
    assert(out@ =~= old(out)@ + null_packet());
}

/// The adaptation fields that the multiplexer writes.
#[derive(Clone, Copy, Debug, PartialEq, Eq)]
pub struct Field {
    /// `discontinuity_indicator`.
    pub discontinuity: bool,
    /// `random_access_indicator`.
    pub random_access: bool,
    /// PCR base and extension.
    pub pcr: Option<(u64, u16)>,
    /// `splice_countdown`.
    pub countdown: Option<i8>,
    /// `splice_type` and `DTS_next_AU`.
    pub seamless: Option<(u8, u64)>,
}

impl Field {
    /// The field as the encoder takes it.
    pub open spec fn as_spec(self) -> AdaptationFieldSpec {
        AdaptationFieldSpec {
            discontinuity_indicator: self.discontinuity,
            random_access_indicator: self.random_access,
            elementary_stream_priority_indicator: false,
            pcr: self.pcr,
            opcr: None,
            splice_countdown: self.countdown,
            transport_private_data: None,
            extension: match self.seamless {
                Some(p) => Some(
                    AdaptationFieldExtensionSpec {
                        ltw: None,
                        piecewise_rate: None,
                        seamless_splice: Some(p),
                    },
                ),
                None => None,
            },
        }
    }

    /// The values fit their fields.
    pub open spec fn wf(self) -> bool {
        &&& self.pcr matches Some((base, ext)) ==> base <= 0x1_FFFF_FFFF && ext <= 0x1FF
        &&& self.seamless matches Some((t, dts)) ==> t <= 0xF && dts <= 0x1_FFFF_FFFF
            && self.countdown is Some
    }

    /// Bytes of the field without stuffing.
    pub open spec fn size(self) -> int {
        if self.is_bare() {
            1
        } else {
            2 + (if self.pcr is Some { 6int } else { 0 }) + (if self.countdown is Some {
                1int
            } else {
                0
            }) + (if self.seamless is Some { 7int } else { 0 })
        }
    }

    /// Nothing is set.
    pub open spec fn is_bare(self) -> bool {
        !self.discontinuity && !self.random_access && self.pcr is None && self.countdown is None
            && self.seamless is None
    }

    /// The bytes of the field, stuffed to `want`.
    pub open spec fn bytes(self, want: int) -> Seq<u8> {
        self.as_spec().encoded(want)
    }

    /// Encode, stuffed to `want` bytes.
    pub(crate) fn encode(&self, want: usize) -> (r: Vec<u8>)
        requires
            self.wf(),
            want <= 184,
        ensures
            r@ == self.bytes(want as int),
            r@.len() == (if want > self.size() { want as int } else { self.size() }),
    {
        let extension: Option<AdaptationFieldExtensionSpec> = match self.seamless {
            Some(p) => {
                let mut x: AdaptationFieldExtensionSpec = AdaptationFieldExtensionSpec::default();
                x.seamless_splice = Some(p);
                Some(x)
            },
            None => None,
        };
        let mut spec: AdaptationFieldSpec = AdaptationFieldSpec::default();
        spec.discontinuity_indicator = self.discontinuity;
        spec.random_access_indicator = self.random_access;
        spec.pcr = self.pcr;
        spec.splice_countdown = self.countdown;
        spec.extension = extension;
        assert(spec == self.as_spec());
        proof {
            lemma_field_bytes(*self, want as int);
        }
        let encoded: Result<Vec<u8>, crate::TsError> = spec.encode(Some(want));
        assert(wanted(Some(want)) == want);
        match encoded {
            Ok(v) => v,
            Err(_) => Vec::new(),
        }
    }

    /// Bytes of the field without stuffing.
    pub(crate) fn bare_size(&self) -> (r: usize)
        ensures
            r == self.size(),
    {
        if !self.discontinuity && !self.random_access && self.pcr.is_none()
            && self.countdown.is_none() && self.seamless.is_none() {
            return 1;
        }
        2 + (if self.pcr.is_some() { 6usize } else { 0 }) + (if self.countdown.is_some() {
            1usize
        } else {
            0
        }) + (if self.seamless.is_some() { 7usize } else { 0 })
    }
}

/// A field that fits is never refused, and is as long as its parts or as asked
/// for.
pub proof fn lemma_field_bytes(f: Field, want: int)
    requires
        f.wf(),
        0 <= want <= 184,
    ensures
        f.as_spec().error(Some(want as usize)) is None,
        f.bytes(want).len() == (if want > f.size() { want } else { f.size() }),
        1 <= f.size() <= 16,
        f.as_spec().lacks_fields() == f.is_bare(),
{
    let s = f.as_spec();
    assert(s.extension_bytes().len() == (if f.seamless is Some { 7int } else { 0 })) by {
        if f.seamless is Some {
            let x = s.extension->0;
            assert(x.body().len() == 6);
        }
    }
    assert(s.body().len() == 1 + (if f.pcr is Some { 6int } else { 0 }) + (if f.countdown is Some {
        1int
    } else {
        0
    }) + (if f.seamless is Some { 7int } else { 0 }));
}

/// A field with nothing but a PCR.
pub open spec fn pcr_field(discontinuity: bool, base: u64, ext: u16) -> Field {
    Field {
        discontinuity,
        random_access: false,
        pcr: Some((base, ext)),
        countdown: None,
        seamless: None,
    }
}

/// A packet with a PCR and no payload.
pub open spec fn pcr_packet(pid: u16, cc: u8, discontinuity: bool, base: u64, ext: u16) -> Seq<u8> {
    ts_header(pid, false, 2, cc) + pcr_field(discontinuity, base, ext).bytes(184)
}

/// Append a packet with a PCR and no payload.
pub(crate) fn push_pcr_packet(
    out: &mut Vec<u8>,
    pid: u16,
    cc: u8,
    discontinuity: bool,
    base: u64,
    ext: u16,
)
    requires
        base <= 0x1_FFFF_FFFF,
        ext <= 0x1FF,
    ensures
        final(out)@ == old(out)@ + pcr_packet(pid, cc, discontinuity, base, ext),
        final(out)@.len() == old(out)@.len() + 188,
{
    push_header(out, pid, false, 2, cc);
    let f: Field = Field {
        discontinuity,
        random_access: false,
        pcr: Some((base, ext)),
        countdown: None,
        seamless: None,
    };
    let af: Vec<u8> = f.encode(184);
    out.extend_from_slice(af.as_slice());
    assert(out@ =~= old(out)@ + pcr_packet(pid, cc, discontinuity, base, ext));
}

/// How much of a section goes into a packet: a start packet has a pointer field.
pub open spec fn psi_take(start: bool, left: int) -> int {
    let room = if start { 183int } else { 184 };
    if left < room { left } else { room }
}

/// A packet with the head of the rest of a section, stuffed.
pub open spec fn psi_packet(pid: u16, cc: u8, start: bool, rest: Seq<u8>) -> Seq<u8> {
    let n = psi_take(start, rest.len() as int);
    let lead = if start { seq![0u8] } else { Seq::empty() };
    ts_header(pid, start, 1, cc) + lead + rest.take(n) + fill((184 - lead.len() - n) as nat)
}

/// Append a packet with the head of the rest of a section. Returns how much of
/// it went in.
pub(crate) fn push_psi_packet(
    out: &mut Vec<u8>,
    pid: u16,
    cc: u8,
    start: bool,
    rest: &[u8],
) -> (n: usize)
    ensures
        n == psi_take(start, rest@.len() as int),
        n <= rest@.len(),
        final(out)@ == old(out)@ + psi_packet(pid, cc, start, rest@),
        final(out)@.len() == old(out)@.len() + 188,
{
    push_header(out, pid, start, 1, cc);
    let mut room: usize = 184;
    if start {
        out.push(0);
        room = 183;
    }
    let n: usize = if rest.len() < room { rest.len() } else { room };
    let chunk: &[u8] = &rest[0..n];
    assert(chunk@ =~= rest@.take(n as int));
    out.extend_from_slice(chunk);
    push_fill(out, room - n);
    assert(out@ =~= old(out)@ + psi_packet(pid, cc, start, rest@));
    n
}

/// The adaptation field of a packet when `left` payload bytes are to be written:
/// none where there is nothing to say and the payload fills the packet, and
/// stuffed where the payload is short.
pub open spec fn field_for(f: Field, left: int) -> Seq<u8> {
    if f.is_bare() && left >= 184 {
        Seq::empty()
    } else if left < 184 - f.size() {
        f.bytes(184 - left)
    } else {
        f.bytes(0)
    }
}

/// How much payload goes beside the field.
pub open spec fn pes_take(f: Field, left: int) -> int {
    let room = if f.is_bare() && left >= 184 { 184 } else { 184 - f.size() };
    if left < room { left } else { room }
}

/// A packet with the head of the rest of a PES packet.
pub open spec fn pes_packet(pid: u16, cc: u8, start: bool, f: Field, rest: Seq<u8>) -> Seq<u8> {
    let left = rest.len() as int;
    ts_header(pid, start, if f.is_bare() && left >= 184 { 1 } else { 3 }, cc) + field_for(f, left)
        + rest.take(pes_take(f, left))
}

/// Append a packet with the head of the rest of a PES packet. Returns how much
/// of it went in.
pub(crate) fn push_pes_packet(
    out: &mut Vec<u8>,
    pid: u16,
    cc: u8,
    start: bool,
    f: &Field,
    rest: &[u8],
) -> (n: usize)
    requires
        f.wf(),
        rest@.len() > 0,
    ensures
        n == pes_take(*f, rest@.len() as int),
        0 < n <= rest@.len(),
        final(out)@ == old(out)@ + pes_packet(pid, cc, start, *f, rest@),
        final(out)@.len() == old(out)@.len() + 188,
{
    proof {
        lemma_field_bytes(*f, 0);
    }
    let left: usize = rest.len();
    let size: usize = f.bare_size();
    if !f.discontinuity && !f.random_access && f.pcr.is_none() && f.countdown.is_none()
        && f.seamless.is_none() && left >= 184 {
        push_header(out, pid, start, 1, cc);
        let chunk: &[u8] = &rest[0..184];
        assert(chunk@ =~= rest@.take(184));
        out.extend_from_slice(chunk);
        assert(out@ =~= old(out)@ + pes_packet(pid, cc, start, *f, rest@));
        return 184;
    }
    push_header(out, pid, start, 3, cc);
    let want: usize = if left < 184 - size { 184 - left } else { 0 };
    let af: Vec<u8> = f.encode(want);
    out.extend_from_slice(af.as_slice());
    let n: usize = if left < 184 - size { left } else { 184 - size };
    let chunk: &[u8] = &rest[0..n];
    assert(chunk@ =~= rest@.take(n as int));
    out.extend_from_slice(chunk);
    assert(out@ =~= old(out)@ + pes_packet(pid, cc, start, *f, rest@));
    n
}

/// Every PES packet written is 188 bytes long and takes some payload along.
pub proof fn lemma_pes_packet_len(pid: u16, cc: u8, start: bool, f: Field, rest: Seq<u8>)
    requires
        f.wf(),
        rest.len() > 0,
    ensures
        pes_packet(pid, cc, start, f, rest).len() == 188,
        0 < pes_take(f, rest.len() as int) <= rest.len(),
{
    let left = rest.len() as int;
    lemma_field_bytes(f, 0);
    if left < 184 - f.size() {
        lemma_field_bytes(f, 184 - left);
    }
}

/// Number of packets that `left` bytes take: `here` bytes fit into the first,
/// `next` into each further one.
pub open spec fn needed(left: int, here: int, next: int) -> int {
    if left <= here { 1 } else { 1 + (left - here + next - 1) / next }
}

/// Number of packets that `remaining` bytes take.
pub fn packets_needed(remaining: usize, cap_first: usize, cap_cont: usize) -> (r: usize)
    requires
        remaining > cap_first ==> cap_cont > 0 && needed(
            remaining as int,
            cap_first as int,
            cap_cont as int,
        ) <= usize::MAX,
    ensures
        r == needed(remaining as int, cap_first as int, cap_cont as int),
{
    if remaining <= cap_first {
        1
    } else {
        let over: usize = remaining - cap_first;
        let whole: usize = over / cap_cont;
        proof {
            lemma_ceil(over as int, cap_cont as int);
        }
        if over % cap_cont == 0 {
            1 + whole
        } else {
            2 + whole
        }
    }
}

/// Packets that take a byte or more are no more than the bytes.
pub(crate) proof fn lemma_needed_bound(left: int, here: int, next: int)
    requires
        left > here > 0,
        next > 0,
    ensures
        needed(left, here, next) <= left,
{
    lemma_ceil(left - here, next);
}

proof fn lemma_ceil(x: int, c: int)
    requires
        x > 0,
        c > 0,
    ensures
        x % c == 0 ==> (x + c - 1) / c == x / c,
        x % c != 0 ==> (x + c - 1) / c == x / c + 1,
        0 <= x / c <= x,
        x % c != 0 ==> x / c + 2 <= x + 1,
{
    assert(x == c * (x / c) + x % c && 0 <= x % c < c && 0 <= x / c <= x) by (nonlinear_arith)
        requires
            x > 0,
            c > 0,
    ;
    let q = x / c;
    let m = x % c;
    if m == 0 {
        assert((x + c - 1) / c == q) by (nonlinear_arith)
            requires
                x == c * q,
                c > 0,
        ;
    } else {
        assert((x + c - 1) / c == q + 1) by (nonlinear_arith)
            requires
                x == c * q + m,
                0 < m < c,
        ;
        assert(x / c + 1 <= x) by (nonlinear_arith)
            requires
                x == c * (x / c) + m,
                0 < m < c,
                x > 0,
                c > 0,
                x / c >= 0,
        ;
    }
}

} // verus!
