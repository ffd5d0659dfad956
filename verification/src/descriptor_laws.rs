//! What the bodies of descriptors mean, byte by byte.
use vstd::prelude::*;

use crate::bits::{bit, lemma_byte_bits};
use crate::descriptor::{descriptor_error, DescriptorBody};
use crate::error::TsError;
use crate::psi::section_laws::{lemma_numbers_at, pid_at, word_at};
use crate::psi::table_laws::{digits, lemma_digits};
use crate::psi::time::utc_time_spec;

verus! {

/// Which tag has which body, and when the data are too short or of no whole number of
/// entries for it: then the body is raw.
pub proof fn lemma_tags_name_bodies(b: DescriptorBody<'_>, tag: u8, d: Seq<u8>)
    requires
        b.decodes(tag, d),
    ensures
        b is Registration <==> tag == 0x05 && d.len() >= 4,
        b is Ca <==> tag == 0x09 && d.len() >= 4,
        b is Iso639Language <==> tag == 0x0A && d.len() % 4 == 0,
        b is NetworkName <==> tag == 0x40,
        b is Service <==> tag == 0x48 && d.len() >= 3 && d.len() >= 3 + d[1] && d.len() >= 3 + d[1]
            + d[2 + d[1]],
        b is ShortEvent <==> tag == 0x4D && d.len() >= 5 && d.len() >= 5 + d[3] && d.len() >= 5
            + d[3] + d[4 + d[3]],
        b is StreamIdentifier <==> tag == 0x52 && d.len() >= 1,
        b is Teletext <==> tag == 0x56 && d.len() % 5 == 0,
        b is LocalTimeOffset <==> tag == 0x58 && d.len() % 13 == 0,
        b is Subtitling <==> tag == 0x59 && d.len() % 8 == 0,
        b is Ac3 ==> tag == 0x6A && d.len() >= 1,
        b matches DescriptorBody::Raw(raw) ==> raw@ == d,
{
}

/// A registration: four bytes that identify the format, the rest is its own.
pub proof fn lemma_registration_says(b: DescriptorBody<'_>, d: Seq<u8>)
    requires
        b.decodes(0x05, d),
        d.len() >= 4,
    ensures
        b matches DescriptorBody::Registration { format_identifier, additional_identification_info }
            && {
            &&& format_identifier@ == d.take(4)
            &&& additional_identification_info@ == d.skip(4)
        },
{
    assert(d.subrange(0, 4) =~= d.take(4));
}

/// Conditional access: the system, a PID in the last 13 bits of two bytes, private data.
pub proof fn lemma_ca_says(b: DescriptorBody<'_>, d: Seq<u8>)
    requires
        b.decodes(0x09, d),
        d.len() >= 4,
    ensures
        b matches DescriptorBody::Ca(ca) && {
            &&& ca.ca_system_id == word_at(d, 0)
            &&& ca.ca_pid == pid_at(d, 2)
            &&& ca.private_data@ == d.skip(4)
        },
{
    lemma_numbers_at(d, 0);
    lemma_numbers_at(d, 2);
}

/// Languages: four bytes each, a code of three letters and the kind of audio.
pub proof fn lemma_languages_say(b: DescriptorBody<'_>, d: Seq<u8>, i: int)
    requires
        b.decodes(0x0A, d),
        d.len() % 4 == 0,
        0 <= i < d.len() / 4,
    ensures
        b matches DescriptorBody::Iso639Language(es) && {
            &&& es@.len() == d.len() / 4
            &&& es@[i].language@ == seq![d[4 * i], d[4 * i + 1], d[4 * i + 2]]
            &&& es@[i].audio_type == d[4 * i + 3]
        },
{
    match b {
        DescriptorBody::Iso639Language(es) => {
            assert(es@[i].language@ =~= seq![d[4 * i], d[4 * i + 1], d[4 * i + 2]]);
        },
        _ => {},
    }
}

/// A service: its type, then the names of provider and service, each behind its length.
pub proof fn lemma_service_descriptor_says(
    b: DescriptorBody<'_>,
    kind: u8,
    provider: Seq<u8>,
    name: Seq<u8>,
)
    requires
        provider.len() <= 255,
        name.len() <= 255,
        b.decodes(
            0x48,
            seq![kind, provider.len() as u8] + provider + seq![name.len() as u8] + name,
        ),
    ensures
        b matches DescriptorBody::Service(s) && {
            &&& s.service_type == kind
            &&& s.service_provider_name@ == provider
            &&& s.service_name@ == name
        },
{
    let n = provider.len() as int;
    let d = seq![kind, provider.len() as u8] + provider + seq![name.len() as u8] + name;
    assert(d[1] == n && d[2 + n] == name.len());
    assert(d.subrange(2, 2 + n) =~= provider);
    assert(d.subrange(3 + n, 3 + n + name.len()) =~= name);
}

/// An event: a language of three letters, then name and text, each behind its length.
pub proof fn lemma_short_event_says(
    b: DescriptorBody<'_>,
    language: Seq<u8>,
    name: Seq<u8>,
    text: Seq<u8>,
)
    requires
        language.len() == 3,
        name.len() <= 255,
        text.len() <= 255,
        b.decodes(
            0x4D,
            language + seq![name.len() as u8] + name + seq![text.len() as u8] + text,
        ),
    ensures
        b matches DescriptorBody::ShortEvent(e) && {
            &&& e.language_code@ == language
            &&& e.event_name@ == name
            &&& e.text@ == text
        },
{
    let n = name.len() as int;
    let d = language + seq![name.len() as u8] + name + seq![text.len() as u8] + text;
    assert(d[3] == n && d[4 + n] == text.len());
    assert(d.subrange(0, 3) =~= language);
    assert(d.subrange(4, 4 + n) =~= name);
    assert(d.subrange(5 + n, 5 + n + text.len()) =~= text);
}

/// Teletext: five bytes each, a language, five bits of type, three of magazine, a page.
pub proof fn lemma_teletext_says(b: DescriptorBody<'_>, d: Seq<u8>, i: int)
    requires
        b.decodes(0x56, d),
        d.len() % 5 == 0,
        0 <= i < d.len() / 5,
    ensures
        b matches DescriptorBody::Teletext(t) && {
            let e = t.entries@[i];
            &&& t.entries@.len() == d.len() / 5
            &&& e.language_code@ == seq![d[5 * i], d[5 * i + 1], d[5 * i + 2]]
            &&& e.teletext_type == d[5 * i + 3] / 8
            &&& e.teletext_magazine_number == d[5 * i + 3] % 8
            &&& e.teletext_page_number == d[5 * i + 4]
        },
{
    lemma_byte_bits(d[5 * i + 3]);
    match b {
        DescriptorBody::Teletext(t) => {
            assert(t.entries@[i].language_code@ =~= seq![d[5 * i], d[5 * i + 1], d[5 * i + 2]]);
        },
        _ => {},
    }
}

/// Local time: thirteen bytes each, a country, six bits of region and the sign of both
/// offsets in the last bit of a byte, the offset as hours and minutes in BCD, the time
/// at which it changes, and the offset from then on.
pub proof fn lemma_local_time_says(b: DescriptorBody<'_>, d: Seq<u8>, i: int)
    requires
        b.decodes(0x58, d),
        d.len() % 13 == 0,
        0 <= i < d.len() / 13,
    ensures
        b matches DescriptorBody::LocalTimeOffset(l) && {
            let e = l.entries@[i];
            let k = 13 * i;
            &&& l.entries@.len() == d.len() / 13
            &&& e.country_code@ == seq![d[k], d[k + 1], d[k + 2]]
            &&& e.country_region_id == d[k + 3] / 4
            &&& e.offset_negative == (d[k + 3] % 2 == 1)
            &&& e.local_time_offset_minutes == 60 * digits(d[k + 4]) + digits(d[k + 5])
            &&& e.time_of_change == utc_time_spec(d.subrange(k + 6, k + 11))
            &&& e.next_time_offset_minutes == 60 * digits(d[k + 11]) + digits(d[k + 12])
        },
{
    let k = 13 * i;
    lemma_byte_bits(d[k + 3]);
    lemma_digits(d[k + 4]);
    lemma_digits(d[k + 5]);
    lemma_digits(d[k + 11]);
    lemma_digits(d[k + 12]);
    match b {
        DescriptorBody::LocalTimeOffset(l) => {
            assert(l.entries@[i].country_code@ =~= seq![d[k], d[k + 1], d[k + 2]]);
        },
        _ => {},
    }
}

/// Subtitles: eight bytes each, a language, a type, the composition page and then the
/// ancillary one.
pub proof fn lemma_subtitling_says(b: DescriptorBody<'_>, d: Seq<u8>, i: int)
    requires
        b.decodes(0x59, d),
        d.len() % 8 == 0,
        0 <= i < d.len() / 8,
    ensures
        b matches DescriptorBody::Subtitling(s) && {
            let e = s.entries@[i];
            let k = 8 * i;
            &&& s.entries@.len() == d.len() / 8
            &&& e.language_code@ == seq![d[k], d[k + 1], d[k + 2]]
            &&& e.subtitling_type == d[k + 3]
            &&& e.composition_page_id == word_at(d, k + 4)
            &&& e.ancillary_page_id == word_at(d, k + 6)
        },
{
    let k = 8 * i;
    lemma_numbers_at(d, k + 4);
    lemma_numbers_at(d, k + 6);
    match b {
        DescriptorBody::Subtitling(s) => {
            assert(s.entries@[i].language_code@ =~= seq![d[k], d[k + 1], d[k + 2]]);
        },
        _ => {},
    }
}

/// AC-3: the first four bits of the first byte flag a component type, a bit stream id, a
/// main id and an associated service, one byte each, one behind the other.
pub proof fn lemma_ac3_says(
    b: DescriptorBody<'_>,
    d: Seq<u8>,
    component: bool,
    bsid: bool,
    mainid: bool,
    asvc: bool,
)
    requires
        b.decodes(0x6A, d),
        d.len() >= 1,
        d[0] / 128 == bit(component),
        d[0] / 64 % 2 == bit(bsid),
        d[0] / 32 % 2 == bit(mainid),
        d[0] / 16 % 2 == bit(asvc),
    ensures
        ({
            let i = 1 + bit(component);
            let m = i + bit(bsid);
            let a = m + bit(mainid);
            &&& b is Ac3 <==> d.len() >= a + bit(asvc)
            &&& b matches DescriptorBody::Ac3(x) ==> {
                &&& x.component_type == if component { Some(d[1]) } else { None }
                &&& x.bsid == if bsid { Some(d[i]) } else { None }
                &&& x.mainid == if mainid { Some(d[m]) } else { None }
                &&& x.asvc == if asvc { Some(d[a]) } else { None }
            }
        }),
{
    lemma_byte_bits(d[0]);
}

/// A descriptor is a tag, a length, and that many bytes; it is refused where they are
/// not there.
pub proof fn lemma_descriptor_refused(s: Seq<u8>)
    requires
        0 < s.len() <= usize::MAX,
    ensures
        s.len() == 1 ==> descriptor_error(s) == Some(
            TsError::Truncated { what: "descriptor header", have: 1, need: 2 },
        ),
        s.len() >= 2 ==> (descriptor_error(s) is None <==> s.len() >= 2 + s[1]),
        s.len() >= 2 && s.len() < 2 + s[1] ==> descriptor_error(s) == Some(
            TsError::Truncated {
                what: "descriptor data",
                have: (s.len() - 2) as usize,
                need: s[1] as usize,
            },
        ),
{
}

} // verus!
