//! Descriptors and DVB time fields, as bytes.
use vstd::prelude::*;
use vstd::slice::slice_to_vec;

use crate::bytes::{be16_bytes, push_be16};
use crate::descriptor::TeletextEntry;
use crate::psi::time::EitDateTime;

verus! {

/// A descriptor: tag, length, data. Data past 255 bytes is cut off.
pub open spec fn tagged(tag: u8, data: Seq<u8>) -> Seq<u8> {
    seq![tag, clip(data, 255).len() as u8] + clip(data, 255)
}

/// The first `n` of `s`, or all of a shorter one.
pub open spec fn clip<T>(s: Seq<T>, n: int) -> Seq<T> {
    if s.len() > n { s.take(n) } else { s }
}

/// The first `n` bytes of `s`, or all of a shorter one.
fn clipped<'a>(s: &'a [u8], n: usize) -> (r: &'a [u8])
    ensures
        r@ == clip(s@, n as int),
{
    if s.len() > n {
        let r: &'a [u8] = &s[0..n];
        assert(r@ =~= s@.take(n as int));
        r
    } else {
        s
    }
}

fn tag_data(tag: u8, data: &[u8]) -> (r: Vec<u8>)
    ensures
        r@ == tagged(tag, data@),
{
    let d: &[u8] = clipped(data, 255);
    let mut out: Vec<u8> = Vec::new();
    out.push(tag);
    out.push(d.len() as u8);
    out.extend_from_slice(d);
    assert(out@ =~= tagged(tag, data@));
    out
}

/// `stream_identifier_descriptor`, tag 0x52.
pub fn stream_identifier_descriptor(component_tag: u8) -> (r: Vec<u8>)
    ensures
        r@ == seq![0x52u8, 1u8, component_tag],
{
    let mut out: Vec<u8> = Vec::new();
    out.push(0x52);
    out.push(1);
    out.push(component_tag);
    assert(out@ =~= seq![0x52u8, 1u8, component_tag]);
    out
}

/// The data of an `ISO_639_language_descriptor`.
pub open spec fn iso639_data(entries: Seq<([u8; 3], u8)>) -> Seq<u8>
    decreases entries.len(),
{
    if entries.len() == 0 {
        Seq::empty()
    } else {
        iso639_data(entries.drop_last()) + entries.last().0@ + seq![entries.last().1]
    }
}

/// `ISO_639_language_descriptor`, tag 0x0A, of `(language, audio_type)` entries.
pub fn iso639_language_descriptor(entries: &[([u8; 3], u8)]) -> (r: Vec<u8>)
    ensures
        r@ == tagged(0x0A, iso639_data(entries@)),
{
    let mut data: Vec<u8> = Vec::new();
    let mut i: usize = 0;
    assert(entries@.take(0) =~= Seq::<([u8; 3], u8)>::empty());
    while i < entries.len()
        invariant
            i <= entries@.len(),
            data@ == iso639_data(entries@.take(i as int)),
        decreases entries@.len() - i,
    {
        let ghost so_far = entries@.take(i + 1);
        assert(so_far.drop_last() =~= entries@.take(i as int));
        let ghost before = data@;
        let lang: [u8; 3] = entries[i].0;
        data.push(lang[0]);
        data.push(lang[1]);
        data.push(lang[2]);
        data.push(entries[i].1);
        assert(data@ =~= before + lang@ + seq![entries@[i as int].1]);
        i += 1;
    }
    assert(entries@.take(i as int) =~= entries@);
    tag_data(0x0A, data.as_slice())
}

/// The data of a `service_descriptor`: names that do not fit are cut off.
pub open spec fn service_data(service_type: u8, provider: Seq<u8>, name: Seq<u8>) -> Seq<u8> {
    let p = clip(provider, 252);
    let n = clip(name, 252 - p.len());
    seq![service_type, p.len() as u8] + p + seq![n.len() as u8] + n
}

/// `service_descriptor`, tag 0x48.
pub fn service_descriptor(service_type: u8, provider_name: &[u8], service_name: &[u8]) -> (r: Vec<
    u8,
>)
    ensures
        r@ == tagged(0x48, service_data(service_type, provider_name@, service_name@)),
{
    let p: &[u8] = clipped(provider_name, 252);
    let n: &[u8] = clipped(service_name, 252 - p.len());
    let mut data: Vec<u8> = Vec::new();
    data.push(service_type);
    data.push(p.len() as u8);
    data.extend_from_slice(p);
    data.push(n.len() as u8);
    data.extend_from_slice(n);
    assert(data@ =~= service_data(service_type, provider_name@, service_name@));
    tag_data(0x48, data.as_slice())
}

/// `network_name_descriptor`, tag 0x40.
pub fn network_name_descriptor(name: &[u8]) -> (r: Vec<u8>)
    ensures
        r@ == tagged(0x40, name@),
{
    tag_data(0x40, name)
}

/// The data of a `short_event_descriptor`: texts that do not fit are cut off.
pub open spec fn short_event_data(language: Seq<u8>, name: Seq<u8>, text: Seq<u8>) -> Seq<u8> {
    let n = clip(name, 250);
    let t = clip(text, 250 - n.len());
    language + seq![n.len() as u8] + n + seq![t.len() as u8] + t
}

/// `short_event_descriptor`, tag 0x4D.
pub fn short_event_descriptor(language: [u8; 3], event_name: &[u8], text: &[u8]) -> (r: Vec<u8>)
    ensures
        r@ == tagged(0x4D, short_event_data(language@, event_name@, text@)),
{
    let n: &[u8] = clipped(event_name, 250);
    let t: &[u8] = clipped(text, 250 - n.len());
    let mut data: Vec<u8> = slice_to_vec(language.as_slice());
    data.push(n.len() as u8);
    data.extend_from_slice(n);
    data.push(t.len() as u8);
    data.extend_from_slice(t);
    assert(data@ =~= short_event_data(language@, event_name@, text@));
    tag_data(0x4D, data.as_slice())
}

/// The data of a `service_list_descriptor`.
pub open spec fn service_list_data(services: Seq<(u16, u8)>) -> Seq<u8>
    decreases services.len(),
{
    if services.len() == 0 {
        Seq::empty()
    } else {
        service_list_data(services.drop_last()) + be16_bytes(services.last().0)
            + seq![services.last().1]
    }
}

/// `service_list_descriptor`, tag 0x41, of `(service_id, service_type)` entries.
pub fn service_list_descriptor(services: &[(u16, u8)]) -> (r: Vec<u8>)
    ensures
        r@ == tagged(0x41, service_list_data(services@)),
{
    let mut data: Vec<u8> = Vec::new();
    let mut i: usize = 0;
    assert(services@.take(0) =~= Seq::<(u16, u8)>::empty());
    while i < services.len()
        invariant
            i <= services@.len(),
            data@ == service_list_data(services@.take(i as int)),
        decreases services@.len() - i,
    {
        let ghost so_far = services@.take(i + 1);
        assert(so_far.drop_last() =~= services@.take(i as int));
        push_be16(&mut data, services[i].0);
        let ghost mid = data@;
        data.push(services[i].1);
        assert(data@ =~= mid + seq![services@[i as int].1]);
        i += 1;
    }
    assert(services@.take(i as int) =~= services@);
    tag_data(0x41, data.as_slice())
}

/// The five bytes of one teletext entry.
pub open spec fn teletext_bytes(e: TeletextEntry) -> Seq<u8> {
    e.language_code@ + seq![
        (e.teletext_type << 3) | (e.teletext_magazine_number & 7),
        e.teletext_page_number,
    ]
}

/// The data of a `teletext_descriptor`.
pub open spec fn teletext_data(entries: Seq<TeletextEntry>) -> Seq<u8>
    decreases entries.len(),
{
    if entries.len() == 0 {
        Seq::empty()
    } else {
        teletext_data(entries.drop_last()) + teletext_bytes(entries.last())
    }
}

/// `teletext_descriptor`, tag 0x56.
pub fn teletext_descriptor(entries: &[TeletextEntry]) -> (r: Vec<u8>)
    ensures
        r@ == tagged(0x56, teletext_data(entries@)),
{
    let mut data: Vec<u8> = Vec::new();
    let mut i: usize = 0;
    assert(entries@.take(0) =~= Seq::<TeletextEntry>::empty());
    while i < entries.len()
        invariant
            i <= entries@.len(),
            data@ == teletext_data(entries@.take(i as int)),
        decreases entries@.len() - i,
    {
        let ghost so_far = entries@.take(i + 1);
        assert(so_far.drop_last() =~= entries@.take(i as int));
        let ghost before = data@;
        let e: TeletextEntry = entries[i];
        data.push(e.language_code[0]);
        data.push(e.language_code[1]);
        data.push(e.language_code[2]);
        data.push((e.teletext_type << 3) | (e.teletext_magazine_number & 7));
        data.push(e.teletext_page_number);
        assert(data@ =~= before + teletext_bytes(e));
        i += 1;
    }
    assert(entries@.take(i as int) =~= entries@);
    tag_data(0x56, data.as_slice())
}

/// Two decimal digits as BCD.
pub open spec fn bcd_code(v: u8) -> u8 {
    (((v / 10) % 10) * 16 + v % 10) as u8
}

/// Two decimal digits as BCD.
pub(crate) fn to_bcd(v: u8) -> (r: u8)
    ensures
        r == bcd_code(v),
{
    ((v / 10) % 10) * 16 + v % 10
}

/// Modified Julian Date of a date: `MJD = 14956 + D + int((Y - L) * 365,25)
/// + int((M + 1 + L * 12) * 30,6001)`, rounded down, with `L = 1` for January and
/// February and `Y` counted from 1900. The formula takes 1900 for a leap year, so
/// a day before March 1900 counts one more.
pub open spec fn date_mjd(year: int, month: int, day: int) -> int {
    let l = if month == 1 || month == 2 { 1int } else { 0 };
    14956 + day + (year - 1900 - l) * 36525 / 100 + (month + 1 + l * 12) * 306001 / 10000 + (
    if year < 1900 || (year == 1900 && month < 3) { 1int } else { 0 })
}

/// The five bytes of a DVB time; all ones for none. The Modified Julian Date
/// keeps its low 16 bits.
pub open spec fn utc_time_bytes(t: Option<EitDateTime>) -> Seq<u8> {
    match t {
        None => seq![0xFFu8, 0xFFu8, 0xFFu8, 0xFFu8, 0xFFu8],
        Some(d) => be16_bytes(
            (date_mjd(d.year as int, d.month as int, d.day as int) % 65536) as u16,
        ) + seq![bcd_code(d.hour), bcd_code(d.minute), bcd_code(d.second)],
    }
}

/// The low 16 bits of the Modified Julian Date of a date.
fn mjd_of(d: EitDateTime) -> (r: u16)
    ensures
        r == date_mjd(d.year as int, d.month as int, d.day as int) % 65536,
{
    let l: i64 = if d.month == 1 || d.month == 2 { 1 } else { 0 };
    let y: i64 = d.year as i64 - 1900 - l;
    let m: i64 = d.month as i64 + 1 + l * 12;
    // Two thousand years more keep the dividend positive; they are 730500 days.
    let year_days: i64 = (((y + 2000) * 36525) as u64 / 100) as i64 - 730_500;
    assert(year_days == y * 36525 / 100);
    let month_days: i64 = ((m * 306001) as u64 / 10000) as i64;
    let early: i64 = if d.year < 1900 || (d.year == 1900 && d.month < 3) { 1 } else { 0 };
    let mjd: i64 = 14956 + d.day as i64 + year_days + month_days + early;
    ((mjd + 0x1000_0000) as u64 % 65536) as u16
}

/// The five bytes of a DVB time, as [`decode_utc_time`] reads them.
///
/// [`decode_utc_time`]: crate::psi::decode_utc_time
pub fn encode_utc_time(t: Option<EitDateTime>) -> (r: [u8; 5])
    ensures
        r@ == utc_time_bytes(t),
{
    match t {
        None => {
            let r: [u8; 5] = [0xFF, 0xFF, 0xFF, 0xFF, 0xFF];
            assert(r@ =~= utc_time_bytes(t));
            r
        },
        Some(d) => {
            let low: u16 = mjd_of(d);
            let r: [u8; 5] = [
                ((low >> 8) & 0xFF) as u8,
                (low & 0xFF) as u8,
                to_bcd(d.hour),
                to_bcd(d.minute),
                to_bcd(d.second),
            ];
            assert(r@ =~= be16_bytes(low) + seq![
                bcd_code(d.hour),
                bcd_code(d.minute),
                bcd_code(d.second),
            ]);
            r
        },
    }
}

} // verus!
