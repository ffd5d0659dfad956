//! The descriptors written here are read back by the parser.
use vstd::prelude::*;

use crate::build::descriptors::{
    clip, iso639_data, service_data, short_event_data, tagged, teletext_bytes, teletext_data,
};
use crate::descriptor::{code_at, descriptor_error, DescriptorBody, TeletextEntry};

verus! {

/// A walk over a descriptor and what follows it finds the descriptor's tag and
/// data, and goes on behind it.
pub proof fn lemma_descriptor_walked(tag: u8, data: Seq<u8>, tail: Seq<u8>)
    ensures
        ({
            let s = tagged(tag, data) + tail;
            &&& descriptor_error(s) is None
            &&& s[0] == tag
            &&& s.subrange(2, 2 + s[1]) == clip(data, 255)
            &&& s.skip(2 + s[1] as int) == tail
        }),
{
    let s = tagged(tag, data) + tail;
    let d = clip(data, 255);
    assert(s[1] == d.len());
    assert(s.subrange(2, 2 + s[1]) =~= d);
    assert(s.skip(2 + s[1] as int) =~= tail);
}

/// A component tag is read back.
pub proof fn lemma_stream_identifier_read_back(b: DescriptorBody<'_>, component_tag: u8)
    requires
        b.decodes(0x52, seq![component_tag]),
    ensures
        b matches DescriptorBody::StreamIdentifier(s) && s.component_tag == component_tag,
{
}

/// A network name is read back.
pub proof fn lemma_network_name_read_back(b: DescriptorBody<'_>, name: Seq<u8>)
    requires
        b.decodes(0x40, name),
    ensures
        b matches DescriptorBody::NetworkName(n) && n.network_name@ == name,
{
}

/// Service and provider names that fit are read back.
pub proof fn lemma_service_read_back(
    b: DescriptorBody<'_>,
    service_type: u8,
    provider: Seq<u8>,
    name: Seq<u8>,
)
    requires
        provider.len() + name.len() <= 252,
        b.decodes(0x48, service_data(service_type, provider, name)),
    ensures
        b matches DescriptorBody::Service(s) && {
            &&& s.service_type == service_type
            &&& s.service_provider_name@ == provider
            &&& s.service_name@ == name
        },
{
    let d = service_data(service_type, provider, name);
    assert(d[1] == provider.len());
    assert(d[2 + d[1]] == name.len());
    assert(d.subrange(2, 2 + d[1]) =~= provider);
    assert(d.subrange(3 + d[1], 3 + d[1] + d[2 + d[1]]) =~= name);
}

/// An event's name and text that fit are read back, with their language.
pub proof fn lemma_short_event_read_back(
    b: DescriptorBody<'_>,
    language: Seq<u8>,
    name: Seq<u8>,
    text: Seq<u8>,
)
    requires
        language.len() == 3,
        name.len() + text.len() <= 250,
        b.decodes(0x4D, short_event_data(language, name, text)),
    ensures
        b matches DescriptorBody::ShortEvent(e) && {
            &&& e.language_code@ == language
            &&& e.event_name@ == name
            &&& e.text@ == text
        },
{
    let d = short_event_data(language, name, text);
    assert(d[3] == name.len());
    assert(d[4 + d[3]] == text.len());
    assert(code_at(d, 0) =~= language);
    assert(d.subrange(4, 4 + d[3]) =~= name);
    assert(d.subrange(5 + d[3], 5 + d[3] + d[4 + d[3]]) =~= text);
}

proof fn lemma_iso639_data(entries: Seq<([u8; 3], u8)>)
    ensures
        iso639_data(entries).len() == 4 * entries.len(),
        forall|i: int|
            0 <= i < entries.len() ==> {
                &&& code_at(iso639_data(entries), 4 * i) == (#[trigger] entries[i]).0@
                &&& iso639_data(entries)[4 * i + 3] == entries[i].1
            },
    decreases entries.len(),
{
    if entries.len() > 0 {
        let prior = entries.drop_last();
        lemma_iso639_data(prior);
        let d = iso639_data(entries);
        let p = iso639_data(prior);
        assert forall|i: int| 0 <= i < entries.len() implies {
            &&& code_at(d, 4 * i) == (#[trigger] entries[i]).0@
            &&& d[4 * i + 3] == entries[i].1
        } by {
            if i < prior.len() {
                assert(entries[i] == prior[i]);
                assert(code_at(d, 4 * i) =~= code_at(p, 4 * i));
            } else {
                assert(code_at(d, 4 * i) =~= entries[i].0@);
            }
        }
    }
}

/// Languages are read back.
pub proof fn lemma_iso639_read_back(b: DescriptorBody<'_>, entries: Seq<([u8; 3], u8)>)
    requires
        b.decodes(0x0A, iso639_data(entries)),
    ensures
        b matches DescriptorBody::Iso639Language(v) && {
            &&& v@.len() == entries.len()
            &&& forall|i: int|
                0 <= i < entries.len() ==> (#[trigger] v@[i]).language@ == entries[i].0@
                    && v@[i].audio_type == entries[i].1
        },
{
    lemma_iso639_data(entries);
    let d = iso639_data(entries);
    assert(d.len() % 4 == 0);
    match b {
        DescriptorBody::Iso639Language(v) => {
            assert forall|i: int| 0 <= i < entries.len() implies (#[trigger] v@[i]).language@
                == entries[i].0@ && v@[i].audio_type == entries[i].1 by {
                assert(code_at(d, 4 * i) == entries[i].0@);
            }
        },
        _ => {},
    }
}

proof fn lemma_teletext_bits(kind: u8, magazine: u8)
    by (bit_vector)
    requires
        kind < 32,
        magazine < 8,
    ensures
        ((kind << 3) | (magazine & 7)) >> 3 == kind,
        ((kind << 3) | (magazine & 7)) & 7 == magazine,
{
}

proof fn lemma_teletext_data(entries: Seq<TeletextEntry>)
    ensures
        teletext_data(entries).len() == 5 * entries.len(),
        forall|i: int|
            0 <= i < entries.len() ==> teletext_data(entries).subrange(5 * i, 5 * i + 5)
                == teletext_bytes(#[trigger] entries[i]),
    decreases entries.len(),
{
    if entries.len() > 0 {
        let prior = entries.drop_last();
        lemma_teletext_data(prior);
        let d = teletext_data(entries);
        let p = teletext_data(prior);
        assert forall|i: int| 0 <= i < entries.len() implies d.subrange(5 * i, 5 * i + 5)
            == teletext_bytes(#[trigger] entries[i]) by {
            if i < prior.len() {
                assert(entries[i] == prior[i]);
                assert(d.subrange(5 * i, 5 * i + 5) =~= p.subrange(5 * i, 5 * i + 5));
            } else {
                assert(d.subrange(5 * i, 5 * i + 5) =~= teletext_bytes(entries[i]));
            }
        }
    }
}

/// Teletext pages whose type and magazine fit their fields are read back.
pub proof fn lemma_teletext_read_back(b: DescriptorBody<'_>, entries: Seq<TeletextEntry>)
    requires
        forall|i: int|
            0 <= i < entries.len() ==> (#[trigger] entries[i]).teletext_type < 32
                && entries[i].teletext_magazine_number < 8,
        b.decodes(0x56, teletext_data(entries)),
    ensures
        b matches DescriptorBody::Teletext(t) && {
            &&& t.entries@.len() == entries.len()
            &&& forall|i: int|
                0 <= i < entries.len() ==> {
                    &&& (#[trigger] t.entries@[i]).language_code@ == entries[i].language_code@
                    &&& t.entries@[i].teletext_type == entries[i].teletext_type
                    &&& t.entries@[i].teletext_magazine_number
                        == entries[i].teletext_magazine_number
                    &&& t.entries@[i].teletext_page_number == entries[i].teletext_page_number
                }
        },
{
    lemma_teletext_data(entries);
    let d = teletext_data(entries);
    assert(d.len() % 5 == 0);
    match b {
        DescriptorBody::Teletext(t) => {
            assert forall|i: int| 0 <= i < entries.len() implies {
                &&& (#[trigger] t.entries@[i]).language_code@ == entries[i].language_code@
                &&& t.entries@[i].teletext_type == entries[i].teletext_type
                &&& t.entries@[i].teletext_magazine_number == entries[i].teletext_magazine_number
                &&& t.entries@[i].teletext_page_number == entries[i].teletext_page_number
            } by {
                let e = entries[i];
                let w = d.subrange(5 * i, 5 * i + 5);
                assert(w == teletext_bytes(e));
                assert(code_at(d, 5 * i) =~= e.language_code@) by {
                    assert(d[5 * i] == w[0] && d[5 * i + 1] == w[1] && d[5 * i + 2] == w[2]);
                }
                assert(d[5 * i + 3] == w[3] && d[5 * i + 4] == w[4]);
                lemma_teletext_bits(e.teletext_type, e.teletext_magazine_number);
            }
        },
        _ => {},
    }
}

} // verus!
