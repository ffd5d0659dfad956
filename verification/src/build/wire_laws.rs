//! The bytes that are written, place by place, and what is cut off where it does not
//! fit.
use vstd::prelude::*;

use crate::bits::lemma_byte_bits;
use crate::build::descriptors::{
    bcd_code, clip, service_data, service_list_data, short_event_data, tagged,
};
use crate::build::round_trip::{lemma_low_bits_kept, lemma_pid_kept, lemma_version_kept};
use crate::build::sections::{
    pat_body, pmt_entry, sealed, status_code, unsealed, LEN_TAG, PSI_TAG, SI_TAG,
};
use crate::bytes::{be16_bytes, be32_bytes, lemma_be16_round_trip, lemma_be32_round_trip};
use crate::psi::crc::crc_of;
use crate::psi::dvb::RunningStatus;
use crate::psi::section_laws::{crc_at, lemma_numbers_at, length_at, pid_at, word_at};
use crate::psi::table_laws::digits;

verus! {

/// A section that is written: its id, four bits that tell tables of the systems layer
/// (1011) from those of DVB (1111), its length, its number, version and "current" below
/// two set bits, the only section of its table, body and CRC.
pub proof fn lemma_section_written(
    table_id: u8,
    is_dvb: bool,
    ext: u16,
    version: u8,
    body: Seq<u8>,
)
    requires
        body.len() <= 4086,
        version < 32,
    ensures
        ({
            let s = sealed(table_id, if is_dvb { SI_TAG } else { PSI_TAG }, ext, version, body);
            let n = 8 + body.len() as int;
            &&& s.len() == n + 4
            &&& s[0] == table_id
            &&& s[1] / 16 == if is_dvb { 15int } else { 11 }
            &&& length_at(s, 1) == s.len() - 3
            &&& word_at(s, 3) == ext
            &&& s[5] == 193 + 2 * version
            &&& s[6] == 0
            &&& s[7] == 0
            &&& s.subrange(8, n) == body
            &&& crc_at(s, n) == crc_of(s.take(n))
        }),
{
    let tag = if is_dvb { SI_TAG } else { PSI_TAG };
    let s = sealed(table_id, tag, ext, version, body);
    let u = unsealed(table_id, tag, ext, version, body);
    let n = 8 + body.len() as int;
    assert(s.len() == n + 4 && s[0] == table_id && u.len() == n);
    assert(s[6] == 0 && s[7] == 0 && s[5] == 0xC1u8 | ((version & 0x1F) << 1));
    assert(s[1] / 16 == (if is_dvb { 15int } else { 11 }) && length_at(s, 1) == s.len() - 3) by {
        let m = (body.len() + 9) as u16;
        let len = be16_bytes(tag | m);
        assert(s[1] == len[0] && s[2] == len[1]);
        lemma_length_bytes(tag, is_dvb, m, s);
    }
    assert(word_at(s, 3) == ext) by {
        assert(s.subrange(3, 5) =~= be16_bytes(ext));
        lemma_be16_round_trip(ext, s, 3);
        lemma_numbers_at(s, 3);
    }
    lemma_version_byte(version);
    assert(s.subrange(8, n) =~= body);
    assert(crc_at(s, n) == crc_of(s.take(n))) by {
        assert(s.take(n) =~= u);
        assert(s.subrange(n, n + 4) =~= be32_bytes(crc_of(u)));
        lemma_be32_round_trip(crc_of(u), s, n);
        lemma_numbers_at(s, n);
    }
}

proof fn lemma_length_bytes(tag: u16, is_dvb: bool, m: u16, s: Seq<u8>)
    requires
        tag == (if is_dvb { SI_TAG } else { PSI_TAG }),
        m < 4096,
        s[1] == be16_bytes(tag | m)[0],
        s[2] == be16_bytes(tag | m)[1],
    ensures
        s[1] / 16 == (if is_dvb { 15int } else { 11 }),
        length_at(s, 1) == m,
{
    lemma_pid_kept(0);
    lemma_low_bits_kept(tag, m);
    lemma_byte_bits(s[1]);
    lemma_tags();
    lemma_numbers_at(s, 1);
}

proof fn lemma_version_byte(version: u8)
    requires
        version < 32,
    ensures
        0xC1u8 | ((version & 0x1F) << 1) == 193 + 2 * version,
{
    let v = 0xC1u8 | ((version & 0x1F) << 1);
    lemma_version_kept(version);
    lemma_byte_bits(v);
}

proof fn lemma_tags()
    ensures
        0xB000u16 >> 12 == 11,
        0xF000u16 >> 12 == 15,
{
    assert(0xB000u16 >> 12 == 11 && 0xF000u16 >> 12 == 15) by (bit_vector);
}

/// A program of a PAT that is written: its number, three set bits and its PID.
pub proof fn lemma_program_written(programs: Seq<(u16, u16)>)
    requires
        programs.len() > 0,
        programs.last().1 < 0x2000,
    ensures
        ({
            let b = pat_body(programs);
            let n = pat_body(programs.drop_last()).len() as int;
            &&& b.len() == n + 4
            &&& b.take(n) == pat_body(programs.drop_last())
            &&& word_at(b, n) == programs.last().0
            &&& b[n + 2] / 32 == 7
            &&& pid_at(b, n + 2) == programs.last().1
        }),
{
    let b = pat_body(programs);
    let head = pat_body(programs.drop_last());
    let n = head.len() as int;
    let (number, pid) = programs.last();
    let w = be16_bytes(0xE000 | (pid & 0x1FFF));
    assert(b.take(n) =~= head);
    assert(b.subrange(n, n + 2) =~= be16_bytes(number));
    assert(b[n + 2] == w[0] && b[n + 3] == w[1]);
    lemma_be16_round_trip(number, b, n);
    lemma_numbers_at(b, n);
    lemma_numbers_at(b, n + 2);
    lemma_pid_kept(pid);
}

/// A stream of a PMT that is written: its type, three set bits and its PID, four set
/// bits and the length of its descriptors.
pub proof fn lemma_stream_written(stream_type: u8, pid: u16, info: Seq<u8>)
    requires
        pid < 0x2000,
        info.len() < 4096,
    ensures
        ({
            let h = pmt_entry(stream_type, pid, info).head;
            &&& h.len() == 5
            &&& h[0] == stream_type
            &&& h[1] / 32 == 7
            &&& pid_at(h, 1) == pid
            &&& h[3] / 16 == 15
            &&& length_at(h, 3) == info.len()
        }),
{
    let h = pmt_entry(stream_type, pid, info).head;
    let w = be16_bytes(0xE000 | (pid & 0x1FFF));
    let m = info.len() as u16;
    let len = be16_bytes(LEN_TAG | m);
    assert(h[1] == w[0] && h[2] == w[1] && h[3] == len[0] && h[4] == len[1]);
    lemma_pid_kept(pid);
    lemma_low_bits_kept(LEN_TAG, m);
    lemma_tags();
    lemma_byte_bits(h[3]);
    lemma_numbers_at(h, 1);
    lemma_numbers_at(h, 3);
}

/// The values of the running status that are written.
pub proof fn lemma_status_written(s: RunningStatus)
    ensures
        s is Undefined ==> status_code(s) == 0,
        s is NotRunning ==> status_code(s) == 1,
        s is StartsSoon ==> status_code(s) == 2,
        s is Pausing ==> status_code(s) == 3,
        s is Running ==> status_code(s) == 4,
        s is OffAir ==> status_code(s) == 5,
        s matches RunningStatus::Reserved(v) ==> status_code(s) == v % 8,
{
    if let RunningStatus::Reserved(v) = s {
        lemma_byte_bits(v);
    }
}

/// A number below 100 is written as its two decimal digits.
pub proof fn lemma_digits_written(v: u8)
    requires
        v < 100,
    ensures
        digits(bcd_code(v)) == v,
        bcd_code(v) / 16 == v / 10,
        bcd_code(v) % 16 == v % 10,
{
}

/// A descriptor is its tag, its length and its data; of data longer than 255 bytes the
/// first 255.
pub proof fn lemma_descriptor_written(tag: u8, data: Seq<u8>)
    ensures
        ({
            let d = tagged(tag, data);
            let n = if data.len() < 255 { data.len() as int } else { 255 };
            &&& d.len() == 2 + n
            &&& d[0] == tag
            &&& d[1] == n
            &&& d.skip(2) == data.take(n)
        }),
{
    let d = tagged(tag, data);
    let n = if data.len() < 255 { data.len() as int } else { 255 };
    assert(clip(data, 255) =~= data.take(n));
    assert(d.skip(2) =~= data.take(n));
}

/// The names of a service are written whole where they fit the 255 bytes of a
/// descriptor, with its type and their two lengths; else the provider keeps as much as
/// fits, and then the service.
pub proof fn lemma_service_names_written(kind: u8, provider: Seq<u8>, name: Seq<u8>)
    ensures
        ({
            let d = service_data(kind, provider, name);
            let p = if provider.len() < 252 { provider.len() as int } else { 252 };
            let n = if name.len() < 252 - p { name.len() as int } else { 252 - p };
            &&& d.len() == 3 + p + n
            &&& d.len() <= 255
            &&& d == seq![kind, p as u8] + provider.take(p) + seq![n as u8] + name.take(n)
            &&& provider.len() + name.len() <= 252 ==> p == provider.len() && n == name.len()
            &&& provider.len() + name.len() >= 252 ==> d.len() == 255
        }),
{
    let p = if provider.len() < 252 { provider.len() as int } else { 252 };
    let n = if name.len() < 252 - p { name.len() as int } else { 252 - p };
    assert(clip(provider, 252) =~= provider.take(p));
    assert(clip(name, 252 - p) =~= name.take(n));
}

/// Name and text of an event are written whole where they fit the 255 bytes of a
/// descriptor, with the language and their two lengths; else the name keeps as much as
/// fits, and then the text.
pub proof fn lemma_event_texts_written(language: Seq<u8>, name: Seq<u8>, text: Seq<u8>)
    requires
        language.len() == 3,
    ensures
        ({
            let d = short_event_data(language, name, text);
            let n = if name.len() < 250 { name.len() as int } else { 250 };
            let t = if text.len() < 250 - n { text.len() as int } else { 250 - n };
            &&& d.len() == 5 + n + t
            &&& d.len() <= 255
            &&& d == language + seq![n as u8] + name.take(n) + seq![t as u8] + text.take(t)
            &&& name.len() + text.len() <= 250 ==> n == name.len() && t == text.len()
            &&& name.len() + text.len() >= 250 ==> d.len() == 255
        }),
{
    let n = if name.len() < 250 { name.len() as int } else { 250 };
    let t = if text.len() < 250 - n { text.len() as int } else { 250 - n };
    assert(clip(name, 250) =~= name.take(n));
    assert(clip(text, 250 - n) =~= text.take(t));
}

/// A list of services has three bytes for each, its id and its type.
pub proof fn lemma_service_list_written(services: Seq<(u16, u8)>, i: int)
    requires
        0 <= i < services.len(),
    ensures
        service_list_data(services).len() == 3 * services.len(),
        word_at(service_list_data(services), 3 * i) == services[i].0,
        service_list_data(services)[3 * i + 2] == services[i].1,
    decreases services.len(),
{
    let all = service_list_data(services);
    let head = service_list_data(services.drop_last());
    let n = 3 * (services.len() - 1);
    if services.len() > 1 {
        lemma_service_list_written(services.drop_last(), if i < services.len() - 1 { i } else { 0 });
    } else {
        assert(head.len() == 0);
    }
    assert(head.len() == n);
    if i < services.len() - 1 {
        assert(all[3 * i] == head[3 * i] && all[3 * i + 1] == head[3 * i + 1] && all[3 * i + 2]
            == head[3 * i + 2]);
    } else {
        assert(all.subrange(n, n + 2) =~= be16_bytes(services.last().0));
        lemma_be16_round_trip(services.last().0, all, n);
        lemma_numbers_at(all, n);
    }
}

} // verus!
