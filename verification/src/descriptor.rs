//! Descriptor loops: runs of
//! `tag (8) | length (8) | data`, with the bodies of the common tags decoded.
use vstd::prelude::*;

use crate::bytes::{be16_at, low13, read_be16, read_low13};
use crate::error::{truncated, TsError};
use crate::psi::time::{bcd_byte, bcd_value, decode_utc_time, utc_time_spec, EitDateTime};

verus! {

/// One entry of an ISO-639 language descriptor.
#[derive(Debug, Clone, Copy, PartialEq, Eq)]
pub struct Iso639Entry {
    /// Three-letter language code.
    pub language: [u8; 3],
    /// `audio_type`.
    pub audio_type: u8,
}

/// Body of a CA descriptor.
#[derive(Debug, Clone, Copy, PartialEq, Eq)]
pub struct CaDescriptor<'a> {
    /// `CA_system_ID`.
    pub ca_system_id: u16,
    /// 13-bit `CA_PID`.
    pub ca_pid: u16,
    /// Bytes after the PID.
    pub private_data: &'a [u8],
}

/// Body of a DVB service descriptor.
#[derive(Debug, Clone, Copy, PartialEq, Eq)]
pub struct ServiceDescriptor<'a> {
    /// `service_type`.
    pub service_type: u8,
    /// Raw provider name.
    pub service_provider_name: &'a [u8],
    /// Raw service name.
    pub service_name: &'a [u8],
}

/// Body of a DVB network name descriptor.
#[derive(Debug, Clone, Copy, PartialEq, Eq)]
pub struct NetworkNameDescriptor<'a> {
    /// Raw network name.
    pub network_name: &'a [u8],
}

/// Body of a DVB short event descriptor.
#[derive(Debug, Clone, Copy, PartialEq, Eq)]
pub struct ShortEventDescriptor<'a> {
    /// Three-letter language code.
    pub language_code: [u8; 3],
    /// Raw event name.
    pub event_name: &'a [u8],
    /// Raw short text.
    pub text: &'a [u8],
}

/// Body of a DVB stream identifier descriptor.
#[derive(Debug, Clone, Copy, PartialEq, Eq)]
pub struct StreamIdentifierDescriptor {
    /// `component_tag`.
    pub component_tag: u8,
}

/// One entry of a DVB teletext descriptor.
#[derive(Debug, Clone, Copy, PartialEq, Eq)]
pub struct TeletextEntry {
    /// Three-letter language code.
    pub language_code: [u8; 3],
    /// 5-bit `teletext_type`.
    pub teletext_type: u8,
    /// 3-bit `teletext_magazine_number`.
    pub teletext_magazine_number: u8,
    /// `teletext_page_number`.
    pub teletext_page_number: u8,
}

/// Body of a DVB teletext descriptor.
#[derive(Debug, Clone, PartialEq, Eq)]
pub struct TeletextDescriptor {
    /// Pages, in order.
    pub entries: Vec<TeletextEntry>,
}

/// One entry of a DVB subtitling descriptor.
#[derive(Debug, Clone, Copy, PartialEq, Eq)]
pub struct SubtitlingEntry {
    /// Three-letter language code.
    pub language_code: [u8; 3],
    /// `subtitling_type`.
    pub subtitling_type: u8,
    /// `composition_page_id`.
    pub composition_page_id: u16,
    /// `ancillary_page_id`.
    pub ancillary_page_id: u16,
}

/// Body of a DVB subtitling descriptor.
#[derive(Debug, Clone, PartialEq, Eq)]
pub struct SubtitlingDescriptor {
    /// Services, in order.
    pub entries: Vec<SubtitlingEntry>,
}

/// Body of a DVB AC-3 descriptor.
#[derive(Debug, Clone, Copy, PartialEq, Eq)]
pub struct Ac3Descriptor {
    /// `component_type`, when flagged.
    pub component_type: Option<u8>,
    /// `bsid`, when flagged.
    pub bsid: Option<u8>,
    /// `mainid`, when flagged.
    pub mainid: Option<u8>,
    /// `asvc`, when flagged.
    pub asvc: Option<u8>,
}

/// One entry of a DVB local time offset descriptor.
#[derive(Debug, Clone, Copy, PartialEq, Eq)]
pub struct LocalTimeOffsetEntry {
    /// Three-letter country code.
    pub country_code: [u8; 3],
    /// 6-bit `country_region_id`.
    pub country_region_id: u8,
    /// The offsets count west of UTC.
    pub offset_negative: bool,
    /// Current offset in minutes, unsigned.
    pub local_time_offset_minutes: u16,
    /// When the next offset takes over.
    pub time_of_change: Option<EitDateTime>,
    /// Next offset in minutes, unsigned.
    pub next_time_offset_minutes: u16,
}

/// Body of a DVB local time offset descriptor.
#[derive(Debug, Clone, PartialEq, Eq)]
pub struct LocalTimeOffsetDescriptor {
    /// Countries, in order.
    pub entries: Vec<LocalTimeOffsetEntry>,
}

/// Decoded body of a descriptor.
#[derive(Debug, Clone, PartialEq, Eq)]
pub enum DescriptorBody<'a> {
    /// Tag 0x05.
    Registration { format_identifier: [u8; 4], additional_identification_info: &'a [u8] },
    /// Tag 0x09.
    Ca(CaDescriptor<'a>),
    /// Tag 0x0A.
    Iso639Language(Vec<Iso639Entry>),
    /// Tag 0x40.
    NetworkName(NetworkNameDescriptor<'a>),
    /// Tag 0x48.
    Service(ServiceDescriptor<'a>),
    /// Tag 0x4D.
    ShortEvent(ShortEventDescriptor<'a>),
    /// Tag 0x52.
    StreamIdentifier(StreamIdentifierDescriptor),
    /// Tag 0x56.
    Teletext(TeletextDescriptor),
    /// Tag 0x58.
    LocalTimeOffset(LocalTimeOffsetDescriptor),
    /// Tag 0x59.
    Subtitling(SubtitlingDescriptor),
    /// Tag 0x6A.
    Ac3(Ac3Descriptor),
    /// Any other tag, and a body that does not fit its tag's syntax.
    Raw(&'a [u8]),
}

/// One descriptor of a loop.
#[derive(Debug, Clone, PartialEq, Eq)]
pub struct Descriptor<'a> {
    /// `descriptor_tag`.
    pub tag: u8,
    /// The `descriptor_length` bytes of data.
    pub data: &'a [u8],
    /// The data, decoded.
    pub body: DescriptorBody<'a>,
}

/// Bytes `at..at + 3` of `d`.
pub open spec fn code_at(d: Seq<u8>, at: int) -> Seq<u8> {
    d.subrange(at, at + 3)
}

/// BCD hours and minutes at `d[at]`, in minutes.
pub open spec fn bcd_minutes(d: Seq<u8>, at: int) -> int {
    bcd_value(d[at]) * 60 + bcd_value(d[at + 1])
}

impl<'a> DescriptorBody<'a> {
    /// `self` is what data `d` of a descriptor with tag `tag` decodes to.
    pub open spec fn decodes(self, tag: u8, d: Seq<u8>) -> bool {
        match self {
            DescriptorBody::Registration { format_identifier, additional_identification_info } => {
                &&& tag == 0x05
                &&& d.len() >= 4
                &&& format_identifier@ == d.subrange(0, 4)
                &&& additional_identification_info@ == d.skip(4)
            },
            DescriptorBody::Ca(ca) => {
                &&& tag == 0x09
                &&& d.len() >= 4
                &&& ca.ca_system_id == be16_at(d, 0)
                &&& ca.ca_pid == low13(d[2], d[3])
                &&& ca.private_data@ == d.skip(4)
            },
            DescriptorBody::Iso639Language(entries) => {
                &&& tag == 0x0A
                &&& d.len() % 4 == 0
                &&& entries@.len() == d.len() / 4
                &&& forall|i: int|
                    0 <= i < entries@.len() ==> (#[trigger] entries@[i]).language@ == code_at(d, 4 * i)
                        && entries@[i].audio_type == d[4 * i + 3]
            },
            DescriptorBody::NetworkName(n) => tag == 0x40 && n.network_name@ == d,
            DescriptorBody::Service(s) => {
                &&& tag == 0x48
                &&& service_fits(d)
                &&& s.service_type == d[0]
                &&& s.service_provider_name@ == d.subrange(2, 2 + d[1])
                &&& s.service_name@ == d.subrange(3 + d[1], 3 + d[1] + d[2 + d[1]])
            },
            DescriptorBody::ShortEvent(e) => {
                &&& tag == 0x4D
                &&& short_event_fits(d)
                &&& e.language_code@ == code_at(d, 0)
                &&& e.event_name@ == d.subrange(4, 4 + d[3])
                &&& e.text@ == d.subrange(5 + d[3], 5 + d[3] + d[4 + d[3]])
            },
            DescriptorBody::StreamIdentifier(s) => tag == 0x52 && d.len() >= 1 && s.component_tag
                == d[0],
            DescriptorBody::Teletext(t) => {
                &&& tag == 0x56
                &&& d.len() % 5 == 0
                &&& t.entries@.len() == d.len() / 5
                &&& forall|i: int|
                    0 <= i < t.entries@.len() ==> {
                        &&& (#[trigger] t.entries@[i]).language_code@ == code_at(d, 5 * i)
                        &&& t.entries@[i].teletext_type == d[5 * i + 3] >> 3
                        &&& t.entries@[i].teletext_magazine_number == d[5 * i + 3] & 7
                        &&& t.entries@[i].teletext_page_number == d[5 * i + 4]
                    }
            },
            DescriptorBody::LocalTimeOffset(l) => {
                &&& tag == 0x58
                &&& d.len() % 13 == 0
                &&& l.entries@.len() == d.len() / 13
                &&& forall|i: int|
                    0 <= i < l.entries@.len() ==> {
                        &&& (#[trigger] l.entries@[i]).country_code@ == code_at(d, 13 * i)
                        &&& l.entries@[i].country_region_id == d[13 * i + 3] >> 2
                        &&& l.entries@[i].offset_negative == (d[13 * i + 3] & 1 != 0)
                        &&& l.entries@[i].local_time_offset_minutes == bcd_minutes(d, 13 * i + 4)
                        &&& l.entries@[i].time_of_change == utc_time_spec(
                            d.subrange(13 * i + 6, 13 * i + 11),
                        )
                        &&& l.entries@[i].next_time_offset_minutes == bcd_minutes(d, 13 * i + 11)
                    }
            },
            DescriptorBody::Subtitling(s) => {
                &&& tag == 0x59
                &&& d.len() % 8 == 0
                &&& s.entries@.len() == d.len() / 8
                &&& forall|i: int|
                    0 <= i < s.entries@.len() ==> {
                        &&& (#[trigger] s.entries@[i]).language_code@ == code_at(d, 8 * i)
                        &&& s.entries@[i].subtitling_type == d[8 * i + 3]
                        &&& s.entries@[i].composition_page_id == be16_at(d, 8 * i + 4)
                        &&& s.entries@[i].ancillary_page_id == be16_at(d, 8 * i + 6)
                    }
            },
            DescriptorBody::Ac3(a) => {
                &&& tag == 0x6A
                &&& ac3_fits(d)
                &&& a.component_type == (if d[0] & 0x80 != 0 { Some(d[1]) } else { None })
                &&& a.bsid == (if d[0] & 0x40 != 0 { Some(d[ac3_at(d[0], 0x40)]) } else { None })
                &&& a.mainid == (if d[0] & 0x20 != 0 { Some(d[ac3_at(d[0], 0x20)]) } else { None })
                &&& a.asvc == (if d[0] & 0x10 != 0 { Some(d[ac3_at(d[0], 0x10)]) } else { None })
            },
            DescriptorBody::Raw(raw) => raw@ == d && !has_typed_body(tag, d),
        }
    }
}

/// A service descriptor's two names fit its data.
pub open spec fn service_fits(d: Seq<u8>) -> bool {
    d.len() >= 3 && d.len() >= 3 + d[1] && d.len() >= 3 + d[1] + d[2 + d[1]]
}

/// A short event descriptor's two texts fit its data.
pub open spec fn short_event_fits(d: Seq<u8>) -> bool {
    d.len() >= 5 && d.len() >= 5 + d[3] && d.len() >= 5 + d[3] + d[4 + d[3]]
}

/// Where the AC-3 field flagged by `mask` stands: behind the flagged fields with
/// higher flags.
pub open spec fn ac3_at(flags: u8, mask: u8) -> int {
    1 + (if flags & 0x80 != 0 { 1int } else { 0 }) + (if mask < 0x40 && flags & 0x40 != 0 {
        1int
    } else {
        0
    }) + (if mask < 0x20 && flags & 0x20 != 0 { 1int } else { 0 })
}

/// An AC-3 descriptor's flagged fields fit its data.
pub open spec fn ac3_fits(d: Seq<u8>) -> bool {
    d.len() >= 1 && d.len() >= ac3_at(d[0], 0x10) + if d[0] & 0x10 != 0 { 1int } else { 0 }
}

/// Data `d` fits the syntax of tag `tag`, one of those decoded here.
pub open spec fn has_typed_body(tag: u8, d: Seq<u8>) -> bool {
    ||| tag == 0x05 && d.len() >= 4
    ||| tag == 0x09 && d.len() >= 4
    ||| tag == 0x0A && d.len() % 4 == 0
    ||| tag == 0x40
    ||| tag == 0x48 && service_fits(d)
    ||| tag == 0x4D && short_event_fits(d)
    ||| tag == 0x52 && d.len() >= 1
    ||| tag == 0x56 && d.len() % 5 == 0
    ||| tag == 0x58 && d.len() % 13 == 0
    ||| tag == 0x59 && d.len() % 8 == 0
    ||| tag == 0x6A && ac3_fits(d)
}

/// Walk over a descriptor loop.
#[derive(Debug)]
pub struct DescriptorIter<'a> {
    rest: &'a [u8],
}

/// Why no descriptor can be read from the head of the non-empty run `s`.
pub open spec fn descriptor_error(s: Seq<u8>) -> Option<TsError> {
    if s.len() < 2 {
        Some(truncated("descriptor header", s.len() as int, 2))
    } else if s.len() < 2 + s[1] {
        Some(truncated("descriptor data", s.len() - 2, s[1] as int))
    } else {
        None
    }
}

impl<'a> DescriptorIter<'a> {
    /// Bytes not walked over yet.
    pub closed spec fn remaining(self) -> Seq<u8> {
        self.rest@
    }

    /// The next descriptor; `None` at the end of the loop. A descriptor that
    /// does not fit is an error, after which the walk is at its end.
    pub fn next(&mut self) -> (r: Option<Result<Descriptor<'a>, TsError>>)
        ensures
            r is None <==> old(self).remaining().len() == 0,
            r is None ==> final(self).remaining().len() == 0,
            r matches Some(Err(e)) ==> descriptor_error(old(self).remaining()) == Some(e)
                && final(self).remaining().len() == 0,
            r matches Some(Ok(d)) ==> {
                let s = old(self).remaining();
                &&& descriptor_error(s) is None
                &&& d.tag == s[0]
                &&& d.data@ == s.subrange(2, 2 + s[1])
                &&& d.body.decodes(s[0], s.subrange(2, 2 + s[1]))
                &&& final(self).remaining() == s.skip(2 + s[1] as int)
            },
    {
        let s: &'a [u8] = self.rest;
        if s.len() == 0 {
            return None;
        }
        if s.len() < 2 {
            self.rest = &s[0..0];
            return Some(
                Err(TsError::Truncated { what: "descriptor header", have: s.len(), need: 2 }),
            );
        }
        let n: usize = s[1] as usize;
        if s.len() - 2 < n {
            self.rest = &s[0..0];
            return Some(
                Err(TsError::Truncated { what: "descriptor data", have: s.len() - 2, need: n }),
            );
        }
        let data: &'a [u8] = &s[2..2 + n];
        self.rest = &s[2 + n..s.len()];
        assert(self.rest@ =~= s@.skip(2 + n));
        Some(Ok(Descriptor { tag: s[0], data, body: decode_body(s[0], data) }))
    }
}

/// Walk a descriptor loop.
pub fn iter_descriptors(bytes: &[u8]) -> (r: DescriptorIter<'_>)
    ensures
        r.remaining() == bytes@,
{
    DescriptorIter { rest: bytes }
}

fn code3(d: &[u8], at: usize) -> (r: [u8; 3])
    requires
        at + 3 <= d@.len(),
    ensures
        r@ == code_at(d@, at as int),
{
    let r: [u8; 3] = [d[at], d[at + 1], d[at + 2]];
    assert(r@ =~= code_at(d@, at as int));
    r
}

fn decode_body<'a>(tag: u8, d: &'a [u8]) -> (r: DescriptorBody<'a>)
    requires
        d@.len() <= 255,
    ensures
        r.decodes(tag, d@),
{
    if tag == 0x05 && d.len() >= 4 {
        let format_identifier: [u8; 4] = [d[0], d[1], d[2], d[3]];
        assert(format_identifier@ =~= d@.subrange(0, 4));
        let info: &'a [u8] = &d[4..d.len()];
        assert(info@ =~= d@.skip(4));
        DescriptorBody::Registration { format_identifier, additional_identification_info: info }
    } else if tag == 0x09 && d.len() >= 4 {
        let private_data: &'a [u8] = &d[4..d.len()];
        assert(private_data@ =~= d@.skip(4));
        DescriptorBody::Ca(
            CaDescriptor { ca_system_id: read_be16(d, 0), ca_pid: read_low13(d, 2), private_data },
        )
    } else if tag == 0x0A && d.len() % 4 == 0 {
        DescriptorBody::Iso639Language(decode_iso639(d))
    } else if tag == 0x40 {
        DescriptorBody::NetworkName(NetworkNameDescriptor { network_name: d })
    } else if tag == 0x48 {
        decode_service(d)
    } else if tag == 0x4D {
        decode_short_event(d)
    } else if tag == 0x52 && d.len() >= 1 {
        DescriptorBody::StreamIdentifier(StreamIdentifierDescriptor { component_tag: d[0] })
    } else if tag == 0x56 && d.len() % 5 == 0 {
        decode_teletext(d)
    } else if tag == 0x58 && d.len() % 13 == 0 {
        decode_local_time_offset(d)
    } else if tag == 0x59 && d.len() % 8 == 0 {
        decode_subtitling(d)
    } else if tag == 0x6A {
        decode_ac3(d)
    } else {
        DescriptorBody::Raw(d)
    }
}

fn decode_iso639(d: &[u8]) -> (r: Vec<Iso639Entry>)
    requires
        d@.len() <= 255,
        d@.len() % 4 == 0,
    ensures
        DescriptorBody::Iso639Language(r).decodes(0x0A, d@),
{
    let n: usize = d.len() / 4;
    let mut entries: Vec<Iso639Entry> = Vec::new();
    let mut i: usize = 0;
    while i < n
        invariant
            d@.len() == 4 * n,
            n <= 63,
            entries@.len() == i <= n,
            forall|j: int|
                0 <= j < i ==> (#[trigger] entries@[j]).language@ == code_at(d@, 4 * j)
                    && entries@[j].audio_type == d@[4 * j + 3],
        decreases n - i,
    {
        entries.push(Iso639Entry { language: code3(d, 4 * i), audio_type: d[4 * i + 3] });
        i += 1;
    }
    entries
}

fn decode_service<'a>(d: &'a [u8]) -> (r: DescriptorBody<'a>)
    requires
        d@.len() <= 255,
    ensures
        r.decodes(0x48, d@),
{
    if d.len() < 3 {
        return DescriptorBody::Raw(d);
    }
    let p: usize = d[1] as usize;
    if d.len() < 3 + p {
        return DescriptorBody::Raw(d);
    }
    let n: usize = d[2 + p] as usize;
    if d.len() < 3 + p + n {
        return DescriptorBody::Raw(d);
    }
    DescriptorBody::Service(
        ServiceDescriptor {
            service_type: d[0],
            service_provider_name: &d[2..2 + p],
            service_name: &d[3 + p..3 + p + n],
        },
    )
}

fn decode_short_event<'a>(d: &'a [u8]) -> (r: DescriptorBody<'a>)
    requires
        d@.len() <= 255,
    ensures
        r.decodes(0x4D, d@),
{
    if d.len() < 5 {
        return DescriptorBody::Raw(d);
    }
    let p: usize = d[3] as usize;
    if d.len() < 5 + p {
        return DescriptorBody::Raw(d);
    }
    let n: usize = d[4 + p] as usize;
    if d.len() < 5 + p + n {
        return DescriptorBody::Raw(d);
    }
    DescriptorBody::ShortEvent(
        ShortEventDescriptor {
            language_code: code3(d, 0),
            event_name: &d[4..4 + p],
            text: &d[5 + p..5 + p + n],
        },
    )
}

fn decode_teletext<'a>(d: &'a [u8]) -> (r: DescriptorBody<'a>)
    requires
        d@.len() <= 255,
        d@.len() % 5 == 0,
    ensures
        r.decodes(0x56, d@),
{
    let n: usize = d.len() / 5;
    let mut entries: Vec<TeletextEntry> = Vec::new();
    let mut i: usize = 0;
    while i < n
        invariant
            d@.len() == 5 * n,
            n <= 51,
            entries@.len() == i <= n,
            forall|j: int|
                0 <= j < i ==> {
                    &&& (#[trigger] entries@[j]).language_code@ == code_at(d@, 5 * j)
                    &&& entries@[j].teletext_type == d@[5 * j + 3] >> 3
                    &&& entries@[j].teletext_magazine_number == d@[5 * j + 3] & 7
                    &&& entries@[j].teletext_page_number == d@[5 * j + 4]
                },
        decreases n - i,
    {
        entries.push(
            TeletextEntry {
                language_code: code3(d, 5 * i),
                teletext_type: d[5 * i + 3] >> 3,
                teletext_magazine_number: d[5 * i + 3] & 7,
                teletext_page_number: d[5 * i + 4],
            },
        );
        i += 1;
    }
    DescriptorBody::Teletext(TeletextDescriptor { entries })
}

fn read_bcd_minutes(d: &[u8], at: usize) -> (r: u16)
    requires
        at + 2 <= d@.len(),
    ensures
        r == bcd_minutes(d@, at as int),
{
    bcd_byte(d[at]) as u16 * 60 + bcd_byte(d[at + 1]) as u16
}

fn decode_local_time_offset<'a>(d: &'a [u8]) -> (r: DescriptorBody<'a>)
    requires
        d@.len() <= 255,
        d@.len() % 13 == 0,
    ensures
        r.decodes(0x58, d@),
{
    let n: usize = d.len() / 13;
    let mut entries: Vec<LocalTimeOffsetEntry> = Vec::new();
    let mut i: usize = 0;
    while i < n
        invariant
            d@.len() == 13 * n,
            n <= 19,
            entries@.len() == i <= n,
            forall|j: int|
                0 <= j < i ==> {
                    &&& (#[trigger] entries@[j]).country_code@ == code_at(d@, 13 * j)
                    &&& entries@[j].country_region_id == d@[13 * j + 3] >> 2
                    &&& entries@[j].offset_negative == (d@[13 * j + 3] & 1 != 0)
                    &&& entries@[j].local_time_offset_minutes == bcd_minutes(d@, 13 * j + 4)
                    &&& entries@[j].time_of_change == utc_time_spec(
                        d@.subrange(13 * j + 6, 13 * j + 11),
                    )
                    &&& entries@[j].next_time_offset_minutes == bcd_minutes(d@, 13 * j + 11)
                },
        decreases n - i,
    {
        let k: usize = 13 * i;
        let change: [u8; 5] = [d[k + 6], d[k + 7], d[k + 8], d[k + 9], d[k + 10]];
        assert(change@ =~= d@.subrange(13 * i + 6, 13 * i + 11));
        entries.push(
            LocalTimeOffsetEntry {
                country_code: code3(d, k),
                country_region_id: d[k + 3] >> 2,
                offset_negative: d[k + 3] & 1 != 0,
                local_time_offset_minutes: read_bcd_minutes(d, k + 4),
                time_of_change: decode_utc_time(change),
                next_time_offset_minutes: read_bcd_minutes(d, k + 11),
            },
        );
        i += 1;
    }
    DescriptorBody::LocalTimeOffset(LocalTimeOffsetDescriptor { entries })
}

fn decode_subtitling<'a>(d: &'a [u8]) -> (r: DescriptorBody<'a>)
    requires
        d@.len() <= 255,
        d@.len() % 8 == 0,
    ensures
        r.decodes(0x59, d@),
{
    let n: usize = d.len() / 8;
    let mut entries: Vec<SubtitlingEntry> = Vec::new();
    let mut i: usize = 0;
    while i < n
        invariant
            d@.len() == 8 * n,
            n <= 31,
            entries@.len() == i <= n,
            forall|j: int|
                0 <= j < i ==> {
                    &&& (#[trigger] entries@[j]).language_code@ == code_at(d@, 8 * j)
                    &&& entries@[j].subtitling_type == d@[8 * j + 3]
                    &&& entries@[j].composition_page_id == be16_at(d@, 8 * j + 4)
                    &&& entries@[j].ancillary_page_id == be16_at(d@, 8 * j + 6)
                },
        decreases n - i,
    {
        let k: usize = 8 * i;
        entries.push(
            SubtitlingEntry {
                language_code: code3(d, k),
                subtitling_type: d[k + 3],
                composition_page_id: read_be16(d, k + 4),
                ancillary_page_id: read_be16(d, k + 6),
            },
        );
        i += 1;
    }
    DescriptorBody::Subtitling(SubtitlingDescriptor { entries })
}

fn decode_ac3<'a>(d: &'a [u8]) -> (r: DescriptorBody<'a>)
    requires
        d@.len() <= 255,
    ensures
        r.decodes(0x6A, d@),
{
    if d.len() < 1 {
        return DescriptorBody::Raw(d);
    }
    let flags: u8 = d[0];
    let bsid_at: usize = 1 + (if flags & 0x80 != 0 { 1usize } else { 0 });
    let mainid_at: usize = bsid_at + (if flags & 0x40 != 0 { 1usize } else { 0 });
    let asvc_at: usize = mainid_at + (if flags & 0x20 != 0 { 1usize } else { 0 });
    let end: usize = asvc_at + (if flags & 0x10 != 0 { 1usize } else { 0 });
    if d.len() < end {
        return DescriptorBody::Raw(d);
    }
    DescriptorBody::Ac3(
        Ac3Descriptor {
            component_type: if flags & 0x80 != 0 { Some(d[1]) } else { None },
            bsid: if flags & 0x40 != 0 { Some(d[bsid_at]) } else { None },
            mainid: if flags & 0x20 != 0 { Some(d[mainid_at]) } else { None },
            asvc: if flags & 0x10 != 0 { Some(d[asvc_at]) } else { None },
        },
    )
}

} // verus!
