//! Write side of the adaptation field.
use vstd::prelude::*;

use crate::error::TsError;
use crate::packet::parse::MAX_ADAPTATION_FIELD_LEN;

verus! {

/// Field values of an adaptation field extension.
#[derive(Debug, Clone, Copy, PartialEq, Eq)]
pub struct AdaptationFieldExtensionSpec {
    /// `(ltw_valid_flag, ltw_offset)`; the offset has 15 bits.
    pub ltw: Option<(bool, u16)>,
    /// 22-bit `piecewise_rate`.
    pub piecewise_rate: Option<u32>,
    /// `(splice_type, DTS_next_AU)`: 4 and 33 bits.
    pub seamless_splice: Option<(u8, u64)>,
}

/// Field values of an adaptation field.
#[derive(Debug, Clone, PartialEq, Eq)]
pub struct AdaptationFieldSpec {
    /// `discontinuity_indicator`.
    pub discontinuity_indicator: bool,
    /// `random_access_indicator`.
    pub random_access_indicator: bool,
    /// `elementary_stream_priority_indicator`.
    pub elementary_stream_priority_indicator: bool,
    /// PCR as `(base, extension)`: 33 and 9 bits.
    pub pcr: Option<(u64, u16)>,
    /// OPCR as `(base, extension)`; legal only alongside a PCR.
    pub opcr: Option<(u64, u16)>,
    /// Signed `splice_countdown`.
    pub splice_countdown: Option<i8>,
    /// `private_data_byte` run, at most 255 bytes.
    pub transport_private_data: Option<Vec<u8>>,
    /// Extension body; with no sub-field it is still emitted.
    pub extension: Option<AdaptationFieldExtensionSpec>,
}

// ---------------------------------------------------------------------------
// What an encode means
// ---------------------------------------------------------------------------

/// The six bytes of a clock reference: 33-bit base, six reserved ones, 9-bit
/// extension.
pub open spec fn clock_reference_bytes(base: u64, extension: u16) -> Seq<u8> {
    let b = base & 0x1_FFFF_FFFF;
    let e = extension & 0x1FF;
    seq![
        ((b >> 25) & 0xFF) as u8,
        ((b >> 17) & 0xFF) as u8,
        ((b >> 9) & 0xFF) as u8,
        ((b >> 1) & 0xFF) as u8,
        (((b & 1) as u8) << 7) | 0x7E | (((e >> 8) & 1) as u8),
        (e & 0xFF) as u8,
    ]
}

/// The five bytes of a 33-bit timestamp behind the 4-bit `prefix`: three bits,
/// eight, seven, eight and seven, a marker bit after the first, third and last
/// group.
pub open spec fn ts33_bytes(prefix: u8, ts: u64) -> Seq<u8> {
    seq![
        (prefix << 4) | ((((ts >> 30) & 7) as u8) << 1) | 1,
        ((ts >> 22) & 0xFF) as u8,
        ((((ts >> 15) & 0x7F) as u8) << 1) | 1,
        ((ts >> 7) & 0xFF) as u8,
        (((ts & 0x7F) as u8) << 1) | 1,
    ]
}

impl AdaptationFieldExtensionSpec {
    /// No sub-field is present.
    pub open spec fn lacks_fields(self) -> bool {
        self.ltw is None && self.piecewise_rate is None && self.seamless_splice is None
    }

    /// Why the extension cannot be encoded in a field with or without a splice
    /// countdown.
    pub open spec fn error(self, has_countdown: bool) -> Option<&'static str> {
        if self.ltw matches Some((_, offset)) && offset > 0x7FFF {
            Some("ltw_offset exceeds 15 bits")
        } else if self.piecewise_rate is Some && self.piecewise_rate->0 > 0x3F_FFFF {
            Some("piecewise_rate exceeds 22 bits")
        } else if self.seamless_splice matches Some((splice_type, _)) && splice_type > 0xF {
            Some("splice_type exceeds 4 bits")
        } else if self.seamless_splice matches Some((_, dts)) && dts > 0x1_FFFF_FFFF {
            Some("DTS_next_AU exceeds 33 bits")
        } else if self.seamless_splice is Some && !has_countdown {
            Some("seamless_splice without splice_countdown")
        } else {
            None
        }
    }

    /// Flags byte; the five reserved bits are ones.
    pub open spec fn flags(self) -> u8 {
        0x1Fu8 | (if self.ltw is Some { 0x80u8 } else { 0 }) | (if self.piecewise_rate is Some {
            0x40u8
        } else {
            0
        }) | (if self.seamless_splice is Some { 0x20u8 } else { 0 })
    }

    pub open spec fn ltw_bytes(self) -> Seq<u8> {
        match self.ltw {
            Some((valid, offset)) => seq![
                (if valid { 0x80u8 } else { 0 }) | (((offset >> 8) & 0x7F) as u8),
                (offset & 0xFF) as u8,
            ],
            None => Seq::empty(),
        }
    }

    pub open spec fn rate_bytes(self) -> Seq<u8> {
        match self.piecewise_rate {
            Some(rate) => seq![
                0xC0u8 | (((rate >> 16) & 0x3F) as u8),
                ((rate >> 8) & 0xFF) as u8,
                (rate & 0xFF) as u8,
            ],
            None => Seq::empty(),
        }
    }

    pub open spec fn splice_bytes(self) -> Seq<u8> {
        match self.seamless_splice {
            Some((splice_type, dts)) => ts33_bytes(splice_type, dts),
            None => Seq::empty(),
        }
    }

    /// The bytes after the extension length.
    pub open spec fn body(self) -> Seq<u8> {
        seq![self.flags()] + self.ltw_bytes() + self.rate_bytes() + self.splice_bytes()
    }

    /// Length byte and body.
    pub open spec fn bytes(self) -> Seq<u8> {
        seq![self.body().len() as u8] + self.body()
    }
}

impl AdaptationFieldSpec {
    /// No flag and no optional field is present.
    pub open spec fn lacks_fields(self) -> bool {
        !self.discontinuity_indicator && !self.random_access_indicator
            && !self.elementary_stream_priority_indicator && self.pcr is None && self.opcr is None
            && self.splice_countdown is None && self.transport_private_data is None
            && self.extension is None
    }

    /// Why a field value or a combination of fields is refused.
    pub open spec fn field_error(self) -> Option<&'static str> {
        if self.pcr matches Some((base, _)) && base > 0x1_FFFF_FFFF {
            Some("PCR base exceeds 33 bits")
        } else if self.pcr matches Some((_, ext)) && ext > 0x1FF {
            Some("PCR extension exceeds 9 bits")
        } else if self.opcr is Some && self.pcr is None {
            Some("OPCR without PCR")
        } else if self.opcr matches Some((base, _)) && base > 0x1_FFFF_FFFF {
            Some("OPCR base exceeds 33 bits")
        } else if self.opcr matches Some((_, ext)) && ext > 0x1FF {
            Some("OPCR extension exceeds 9 bits")
        } else if self.transport_private_data is Some && self.transport_private_data->0@.len()
            > 255 {
            Some("transport_private_data exceeds 255 bytes")
        } else if self.extension is Some {
            self.extension->0.error(self.splice_countdown is Some)
        } else {
            None
        }
    }

    /// Flags byte.
    pub open spec fn flags(self) -> u8 {
        (if self.discontinuity_indicator { 0x80u8 } else { 0 })
            | (if self.random_access_indicator { 0x40u8 } else { 0 })
            | (if self.elementary_stream_priority_indicator { 0x20u8 } else { 0 })
            | (if self.pcr is Some { 0x10u8 } else { 0 })
            | (if self.opcr is Some { 0x08u8 } else { 0 })
            | (if self.splice_countdown is Some { 0x04u8 } else { 0 })
            | (if self.transport_private_data is Some { 0x02u8 } else { 0 })
            | (if self.extension is Some { 0x01u8 } else { 0 })
    }

    pub open spec fn pcr_bytes(self) -> Seq<u8> {
        match self.pcr {
            Some((base, ext)) => clock_reference_bytes(base, ext),
            None => Seq::empty(),
        }
    }

    pub open spec fn opcr_bytes(self) -> Seq<u8> {
        match self.opcr {
            Some((base, ext)) => clock_reference_bytes(base, ext),
            None => Seq::empty(),
        }
    }

    pub open spec fn countdown_bytes(self) -> Seq<u8> {
        match self.splice_countdown {
            Some(c) => seq![c as u8],
            None => Seq::empty(),
        }
    }

    pub open spec fn private_bytes(self) -> Seq<u8> {
        match self.transport_private_data {
            Some(data) => seq![data@.len() as u8] + data@,
            None => Seq::empty(),
        }
    }

    pub open spec fn extension_bytes(self) -> Seq<u8> {
        match self.extension {
            Some(ext) => ext.bytes(),
            None => Seq::empty(),
        }
    }

    /// The bytes between the length byte and the stuffing.
    pub open spec fn body(self) -> Seq<u8> {
        seq![self.flags()] + self.pcr_bytes() + self.opcr_bytes() + self.countdown_bytes()
            + self.private_bytes() + self.extension_bytes()
    }

    /// The wire form, stuffed with 0xFF to at least `want` bytes.
    pub open spec fn encoded(self, want: int) -> Seq<u8> {
        if self.lacks_fields() && want <= 1 {
            seq![0u8]
        } else {
            let body = self.body();
            let stuffing = if want > 1 + body.len() { (want - 1 - body.len()) as nat } else { 0nat };
            seq![(body.len() + stuffing) as u8] + body + Seq::new(stuffing, |i: int| 0xFFu8)
        }
    }

    /// Why `encode(min_total_len)` is refused.
    pub open spec fn error(self, min_total_len: Option<usize>) -> Option<&'static str> {
        if min_total_len is Some && min_total_len->0 > 184 {
            Some("adaptation field padding beyond 184 bytes")
        } else if self.field_error() is Some {
            self.field_error()
        } else if 1 + self.body().len() > 184 {
            Some("adaptation field content exceeds 184 bytes")
        } else {
            None
        }
    }
}

/// The number of bytes asked for; none is asked for as zero.
pub open spec fn wanted(min_total_len: Option<usize>) -> int {
    match min_total_len {
        Some(w) => w as int,
        None => 0,
    }
}

// ---------------------------------------------------------------------------
// Encoding
// ---------------------------------------------------------------------------

/// Encode a 6-byte clock reference (PCR or OPCR). `base` is masked to 33 bits
/// and `extension` to 9.
pub fn encode_clock_reference(base: u64, extension: u16) -> (r: [u8; 6])
    ensures
        r@ == clock_reference_bytes(base, extension),
{
    let b: u64 = base & 0x1_FFFF_FFFF;
    let e: u16 = extension & 0x1FF;
    let r: [u8; 6] = [
        ((b >> 25) & 0xFF) as u8,
        ((b >> 17) & 0xFF) as u8,
        ((b >> 9) & 0xFF) as u8,
        ((b >> 1) & 0xFF) as u8,
        (((b & 1) as u8) << 7) | 0x7E | (((e >> 8) & 1) as u8),
        (e & 0xFF) as u8,
    ];
    assert(r@ =~= clock_reference_bytes(base, extension));
    r
}

/// Append the 5-byte marker form of a 33-bit timestamp.
pub(crate) fn push_ts33(out: &mut Vec<u8>, prefix: u8, ts: u64)
    ensures
        final(out)@ == old(out)@ + ts33_bytes(prefix, ts),
{
    out.push((prefix << 4) | ((((ts >> 30) & 7) as u8) << 1) | 1);
    out.push(((ts >> 22) & 0xFF) as u8);
    out.push(((((ts >> 15) & 0x7F) as u8) << 1) | 1);
    out.push(((ts >> 7) & 0xFF) as u8);
    out.push((((ts & 0x7F) as u8) << 1) | 1);
    assert(out@ =~= old(out)@ + ts33_bytes(prefix, ts));
}

impl AdaptationFieldExtensionSpec {
    /// The extension with no sub-field.
    pub open spec fn none() -> Self {
        AdaptationFieldExtensionSpec { ltw: None, piecewise_rate: None, seamless_splice: None }
    }

    /// `true` when no optional sub-field is present.
    pub fn is_empty(&self) -> (r: bool)
        ensures
            r == self.lacks_fields(),
    {
        self.ltw.is_none() && self.piecewise_rate.is_none() && self.seamless_splice.is_none()
    }

    /// Refuse values that overflow their fields.
    fn check(&self, has_countdown: bool) -> (r: Result<(), TsError>)
        ensures
            r == (match self.error(has_countdown) {
                Some(what) => Err::<(), TsError>(TsError::InvalidField { what }),
                None => Ok(()),
            }),
    {
        if let Some((_, offset)) = self.ltw {
            if offset > 0x7FFF {
                return Err(TsError::InvalidField { what: "ltw_offset exceeds 15 bits" });
            }
        }
        if let Some(rate) = self.piecewise_rate {
            if rate > 0x3F_FFFF {
                return Err(TsError::InvalidField { what: "piecewise_rate exceeds 22 bits" });
            }
        }
        if let Some((splice_type, dts)) = self.seamless_splice {
            if splice_type > 0xF {
                return Err(TsError::InvalidField { what: "splice_type exceeds 4 bits" });
            }
            if dts > 0x1_FFFF_FFFF {
                return Err(TsError::InvalidField { what: "DTS_next_AU exceeds 33 bits" });
            }
            if !has_countdown {
                return Err(
                    TsError::InvalidField { what: "seamless_splice without splice_countdown" },
                );
            }
        }
        Ok(())
    }

    /// Append the length byte and the body.
    fn push_to(&self, out: &mut Vec<u8>)
        ensures
            final(out)@ == old(out)@ + self.bytes(),
    {
        let ltw_len: u8 = if self.ltw.is_some() { 2 } else { 0 };
        let rate_len: u8 = if self.piecewise_rate.is_some() { 3 } else { 0 };
        let splice_len: u8 = if self.seamless_splice.is_some() { 5 } else { 0 };
        out.push(1 + ltw_len + rate_len + splice_len);
        out.push(
            0x1Fu8 | (if self.ltw.is_some() { 0x80u8 } else { 0 })
                | (if self.piecewise_rate.is_some() { 0x40u8 } else { 0 })
                | (if self.seamless_splice.is_some() { 0x20u8 } else { 0 }),
        );
        if let Some((valid, offset)) = self.ltw {
            out.push((if valid { 0x80u8 } else { 0 }) | (((offset >> 8) & 0x7F) as u8));
            out.push((offset & 0xFF) as u8);
        }
        if let Some(rate) = self.piecewise_rate {
            out.push(0xC0u8 | (((rate >> 16) & 0x3F) as u8));
            out.push(((rate >> 8) & 0xFF) as u8);
            out.push((rate & 0xFF) as u8);
        }
        if let Some((splice_type, dts)) = self.seamless_splice {
            push_ts33(out, splice_type, dts);
        }
        assert(out@ =~= old(out)@ + self.bytes());
    }
}

impl Default for AdaptationFieldExtensionSpec {
    fn default() -> (r: Self)
        ensures
            r == Self::none(),
    {
        AdaptationFieldExtensionSpec { ltw: None, piecewise_rate: None, seamless_splice: None }
    }
}

impl Default for AdaptationFieldSpec {
    fn default() -> (r: Self)
        ensures
            r.lacks_fields(),
    {
        AdaptationFieldSpec {
            discontinuity_indicator: false,
            random_access_indicator: false,
            elementary_stream_priority_indicator: false,
            pcr: None,
            opcr: None,
            splice_countdown: None,
            transport_private_data: None,
            extension: None,
        }
    }
}

impl AdaptationFieldSpec {
    /// An adaptation field carrying only a PCR.
    pub fn with_pcr(base: u64, extension: u16) -> (r: Self)
        ensures
            r == (AdaptationFieldSpec {
                discontinuity_indicator: false,
                random_access_indicator: false,
                elementary_stream_priority_indicator: false,
                pcr: Some((base, extension)),
                opcr: None,
                splice_countdown: None,
                transport_private_data: None,
                extension: None,
            }),
    {
        AdaptationFieldSpec {
            discontinuity_indicator: false,
            random_access_indicator: false,
            elementary_stream_priority_indicator: false,
            pcr: Some((base, extension)),
            opcr: None,
            splice_countdown: None,
            transport_private_data: None,
            extension: None,
        }
    }

    /// `true` when there is no flag and no optional field: such a field is
    /// encoded as a single zero length byte unless padding is asked for.
    pub fn is_empty(&self) -> (r: bool)
        ensures
            r == self.lacks_fields(),
    {
        !self.discontinuity_indicator && !self.random_access_indicator
            && !self.elementary_stream_priority_indicator && self.pcr.is_none()
            && self.opcr.is_none() && self.splice_countdown.is_none()
            && self.transport_private_data.is_none() && self.extension.is_none()
    }

    /// Refuse values that overflow their fields and forbidden combinations.
    fn check(&self) -> (r: Result<(), TsError>)
        ensures
            r == (match self.field_error() {
                Some(what) => Err::<(), TsError>(TsError::InvalidField { what }),
                None => Ok(()),
            }),
    {
        if let Some((base, ext)) = self.pcr {
            if base > 0x1_FFFF_FFFF {
                return Err(TsError::InvalidField { what: "PCR base exceeds 33 bits" });
            }
            if ext > 0x1FF {
                return Err(TsError::InvalidField { what: "PCR extension exceeds 9 bits" });
            }
        }
        if let Some((base, ext)) = self.opcr {
            if self.pcr.is_none() {
                return Err(TsError::InvalidField { what: "OPCR without PCR" });
            }
            if base > 0x1_FFFF_FFFF {
                return Err(TsError::InvalidField { what: "OPCR base exceeds 33 bits" });
            }
            if ext > 0x1FF {
                return Err(TsError::InvalidField { what: "OPCR extension exceeds 9 bits" });
            }
        }
        if let Some(data) = &self.transport_private_data {
            if data.len() > 255 {
                return Err(
                    TsError::InvalidField { what: "transport_private_data exceeds 255 bytes" },
                );
            }
        }
        if let Some(ext) = &self.extension {
            return ext.check(self.splice_countdown.is_some());
        }
        Ok(())
    }

    /// The flags byte.
    fn encode_flags(&self) -> (r: u8)
        ensures
            r == self.flags(),
    {
        (if self.discontinuity_indicator { 0x80u8 } else { 0 }) | (if self.random_access_indicator {
            0x40u8
        } else {
            0
        }) | (if self.elementary_stream_priority_indicator { 0x20u8 } else { 0 })
            | (if self.pcr.is_some() { 0x10u8 } else { 0 })
            | (if self.opcr.is_some() { 0x08u8 } else { 0 })
            | (if self.splice_countdown.is_some() { 0x04u8 } else { 0 })
            | (if self.transport_private_data.is_some() { 0x02u8 } else { 0 })
            | (if self.extension.is_some() { 0x01u8 } else { 0 })
    }

    /// Append the two clock references.
    fn push_clocks(&self, out: &mut Vec<u8>)
        requires
            self.field_error() is None,
        ensures
            final(out)@ == old(out)@ + self.pcr_bytes() + self.opcr_bytes(),
    {
        if let Some((base, ext)) = self.pcr {
            let bytes: [u8; 6] = encode_clock_reference(base, ext);
            out.extend_from_slice(bytes.as_slice());
        }
        let ghost s1 = old(out)@ + self.pcr_bytes();
        assert(out@ =~= s1);
        if let Some((base, ext)) = self.opcr {
            let bytes: [u8; 6] = encode_clock_reference(base, ext);
            out.extend_from_slice(bytes.as_slice());
        }
        assert(out@ =~= s1 + self.opcr_bytes());
    }

    /// Append what follows the clock references.
    fn push_tail(&self, out: &mut Vec<u8>)
        requires
            self.field_error() is None,
        ensures
            final(out)@ == old(out)@ + self.countdown_bytes() + self.private_bytes()
                + self.extension_bytes(),
    {
        if let Some(countdown) = self.splice_countdown {
            out.push(#[verifier::truncate] (countdown as u8));
        }
        let ghost s3 = old(out)@ + self.countdown_bytes();
        assert(out@ =~= s3);
        if let Some(data) = &self.transport_private_data {
            out.push(data.len() as u8);
            out.extend_from_slice(data.as_slice());
        }
        let ghost s4 = s3 + self.private_bytes();
        assert(out@ =~= s4);
        if let Some(ext) = &self.extension {
            ext.push_to(out);
        }
        assert(out@ =~= s4 + self.extension_bytes());
    }

    /// Flags and optional fields.
    fn encode_body(&self) -> (r: Vec<u8>)
        requires
            self.field_error() is None,
        ensures
            r@ == self.body(),
    {
        let mut out: Vec<u8> = Vec::new();
        out.push(self.encode_flags());
        assert(out@ =~= seq![self.flags()]);
        self.push_clocks(&mut out);
        self.push_tail(&mut out);
        out
    }

    /// Encode the field, its length byte included.
    ///
    /// `min_total_len` stuffs the field with 0xFF to at least that many bytes.
    /// A value too wide for its field, an OPCR without a PCR, a seamless splice
    /// without a countdown, and a field over 184 bytes are
    /// [`TsError::InvalidField`].
    pub fn encode(&self, min_total_len: Option<usize>) -> (r: Result<Vec<u8>, TsError>)
        ensures
            match self.error(min_total_len) {
                Some(what) => r == Err::<Vec<u8>, TsError>(TsError::InvalidField { what }),
                None => r is Ok && r->Ok_0@ == self.encoded(wanted(min_total_len)),
            },
    {
        let want: usize = match min_total_len {
            Some(w) => w,
            None => 0,
        };
        if want > MAX_ADAPTATION_FIELD_LEN {
            return Err(
                TsError::InvalidField { what: "adaptation field padding beyond 184 bytes" },
            );
        }
        if self.is_empty() && want <= 1 {
            let mut single: Vec<u8> = Vec::new();
            single.push(0);
            assert(single@ =~= self.encoded(want as int));
            return Ok(single);
        }
        self.check()?;
        let mut out: Vec<u8> = Vec::new();
        out.push(0);
        let body: Vec<u8> = self.encode_body();
        out.extend_from_slice(body.as_slice());
        if out.len() > MAX_ADAPTATION_FIELD_LEN {
            return Err(
                TsError::InvalidField { what: "adaptation field content exceeds 184 bytes" },
            );
        }
        while out.len() < want
            invariant
                want <= 184,
                1 + self.body().len() <= out@.len() <= 184,
                1 + self.body().len() <= want ==> out@.len() <= want,
                want < 1 + self.body().len() ==> out@.len() == 1 + self.body().len(),
                out@ =~= seq![0u8] + self.body() + Seq::new(
                    (out@.len() - 1 - self.body().len()) as nat,
                    |i: int| 0xFFu8,
                ),
            decreases want - out.len(),
        {
            out.push(0xFF);
        }
        let length: u8 = (out.len() - 1) as u8;
        out.set(0, length);
        assert(out@ =~= self.encoded(want as int));
        Ok(out)
    }
}

} // verus!
