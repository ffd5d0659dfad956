//! What the tables say, by the bytes of their sections.
use vstd::prelude::*;

use crate::bits::lemma_byte_bits;
use crate::psi::crc::crc_of;
use crate::psi::dvb::{
    eit_error, eit_id, eit_other_id, eit_schedule_id, nit_error, nit_id, nit_loop, sdt_error,
    EIT_PID, EitEvent, EventInformationTable, NIT_PID, NetworkInformationTable, RunningStatus,
    SDT_PID, SdtService, ServiceDescriptionTable,
};
use crate::psi::entries::{loop_entries, LoopEntry};
use crate::psi::section::{section_body, section_error, section_header, section_total};
use crate::psi::section_laws::{
    crc_at, lemma_numbers_at, lemma_section_accepted, lemma_section_fields,
    lemma_short_section_accepted, length_at, pid_at, word_at,
};
use crate::psi::tables::{
    pat_programs, pmt_error, pmt_loop, CAT_PID, CAT_TABLE_ID, ConditionalAccessTable, PAT_PID,
    PAT_TABLE_ID, PMT_TABLE_ID, PmtStream, ProgramAssociationTable, ProgramMapTable, TSDT_PID,
    TSDT_TABLE_ID, TransportStreamDescriptionTable,
};
use crate::psi::time::{
    bcd_value, civil_date, lemma_date_in_range, tdt_error, tot_error, utc_time_spec, TDT_TABLE_ID,
    TDT_TOT_PID, TOT_TABLE_ID,
};

verus! {

/// Two BCD digits: tens in the high half of a byte, ones in the low one.
pub open spec fn digits(b: u8) -> int {
    10 * (b / 16) + b % 16
}

pub(crate) proof fn lemma_digits(b: u8)
    ensures
        bcd_value(b) == digits(b),
        0 <= digits(b) <= 165,
{
    lemma_byte_bits(b);
}

/// A PAT lists programs, four bytes each: the number, and the PID of the map in the
/// last 13 bits.
pub proof fn lemma_pat_says(t: ProgramAssociationTable, s: Seq<u8>)
    requires
        section_error(s, PAT_TABLE_ID) is None,
        t.holds(section_header(s), pat_programs(section_body(s))),
    ensures
        s[0] == 0x00,
        t.transport_stream_id == word_at(s, 3),
        t.version_number == s[5] / 2 % 32,
        t.current_next_indicator == (s[5] % 2 == 1),
        t.section_number == s[6],
        t.last_section_number == s[7],
        t.programs@.len() == (length_at(s, 1) - 9) / 4,
        forall|i: int|
            0 <= i < t.programs@.len() ==> (#[trigger] t.programs@[i]).0 == word_at(s, 8 + 4 * i)
                && t.programs@[i].1 == pid_at(s, 10 + 4 * i),
{
    lemma_section_accepted(s, PAT_TABLE_ID);
    lemma_section_fields(s);
    let body = section_body(s);
    assert forall|i: int| 0 <= i < t.programs@.len() implies (#[trigger] t.programs@[i]).0
        == word_at(s, 8 + 4 * i) && t.programs@[i].1 == pid_at(s, 10 + 4 * i) by {
        lemma_numbers_at(body, 4 * i);
        lemma_numbers_at(body, 4 * i + 2);
        assert(body[4 * i] == s[8 + 4 * i] && body[4 * i + 1] == s[9 + 4 * i]);
        assert(body[4 * i + 2] == s[10 + 4 * i] && body[4 * i + 3] == s[11 + 4 * i]);
    }
}

/// A stream of a PMT: its type in the first byte, its PID in the last 13 bits of the next
/// two.
pub proof fn lemma_pmt_stream_says(t: PmtStream, e: LoopEntry)
    requires
        t.reads(e),
    ensures
        t.stream_type == e.head[0],
        t.elementary_pid == pid_at(e.head, 1),
        t.descriptors@ == e.descriptors,
{
    lemma_numbers_at(e.head, 1);
}

/// A PMT names its program, the PID of the clock, the descriptors of the program, and
/// then its streams, with heads of five bytes.
pub proof fn lemma_pmt_says(t: ProgramMapTable, s: Seq<u8>)
    requires
        pmt_error(s) is None,
        t.reads(s),
    ensures
        s[0] == 0x02,
        t.program_number == word_at(s, 3),
        t.version_number == s[5] / 2 % 32,
        t.current_next_indicator == (s[5] % 2 == 1),
        t.pcr_pid == pid_at(s, 8),
        t.program_info@ == s.subrange(12, 12 + length_at(s, 10)),
        ({
            let l = s.subrange(12 + length_at(s, 10), length_at(s, 1) - 1);
            &&& loop_entries(l, 5) is Ok
            &&& t.streams@.len() == loop_entries(l, 5)->Ok_0.len()
            &&& forall|i: int|
                0 <= i < t.streams@.len() ==> {
                    let e = loop_entries(l, 5)->Ok_0[i];
                    &&& (#[trigger] t.streams@[i]).stream_type == e.head[0]
                    &&& t.streams@[i].elementary_pid == pid_at(e.head, 1)
                    &&& t.streams@[i].descriptors@ == e.descriptors
                }
        }),
{
    lemma_section_accepted(s, PMT_TABLE_ID);
    lemma_section_fields(s);
    let body = section_body(s);
    lemma_numbers_at(body, 0);
    lemma_numbers_at(body, 2);
    assert(body[0] == s[8] && body[1] == s[9] && body[2] == s[10] && body[3] == s[11]);
    assert(body.subrange(4, 4 + length_at(s, 10)) =~= s.subrange(12, 12 + length_at(s, 10)));
    let l = s.subrange(12 + length_at(s, 10), length_at(s, 1) - 1);
    assert(pmt_loop(body) =~= l);
    assert forall|i: int| 0 <= i < t.streams@.len() implies {
        let e = loop_entries(l, 5)->Ok_0[i];
        &&& (#[trigger] t.streams@[i]).stream_type == e.head[0]
        &&& t.streams@[i].elementary_pid == pid_at(e.head, 1)
        &&& t.streams@[i].descriptors@ == e.descriptors
    } by {
        lemma_pmt_stream_says(t.streams@[i], loop_entries(l, 5)->Ok_0[i]);
    }
}

/// A CAT is nothing but descriptors.
pub proof fn lemma_cat_says(t: ConditionalAccessTable, s: Seq<u8>)
    requires
        section_error(s, CAT_TABLE_ID) is None,
        t.holds(section_header(s), section_body(s)),
    ensures
        s[0] == 0x01,
        t.version_number == s[5] / 2 % 32,
        t.current_next_indicator == (s[5] % 2 == 1),
        t.section_number == s[6],
        t.last_section_number == s[7],
        t.descriptors@ == s.subrange(8, length_at(s, 1) - 1),
{
    lemma_section_accepted(s, CAT_TABLE_ID);
    lemma_section_fields(s);
}

/// A TSDT is nothing but descriptors.
pub proof fn lemma_tsdt_says(t: TransportStreamDescriptionTable, s: Seq<u8>)
    requires
        section_error(s, TSDT_TABLE_ID) is None,
        t.holds(section_header(s), section_body(s)),
    ensures
        s[0] == 0x03,
        t.version_number == s[5] / 2 % 32,
        t.current_next_indicator == (s[5] % 2 == 1),
        t.section_number == s[6],
        t.last_section_number == s[7],
        t.descriptors@ == s.subrange(8, length_at(s, 1) - 1),
{
    lemma_section_accepted(s, TSDT_TABLE_ID);
    lemma_section_fields(s);
}

/// A NIT describes a network: its own with `table_id` 0x40, another with 0x41. After the
/// descriptors of the network come its transport streams, with heads of six bytes.
pub proof fn lemma_nit_says(t: NetworkInformationTable, s: Seq<u8>)
    requires
        nit_error(s) is None,
        t.reads(s),
    ensures
        s[0] == 0x40 || s[0] == 0x41,
        t.other_network == (s[0] == 0x41),
        t.network_id == word_at(s, 3),
        t.version_number == s[5] / 2 % 32,
        t.current_next_indicator == (s[5] % 2 == 1),
        t.section_number == s[6],
        t.last_section_number == s[7],
        t.descriptors@ == s.subrange(10, 10 + length_at(s, 8)),
        ({
            let at = 10 + length_at(s, 8);
            let l = s.subrange(at + 2, at + 2 + length_at(s, at));
            &&& loop_entries(l, 6) is Ok
            &&& t.transport_streams@.len() == loop_entries(l, 6)->Ok_0.len()
            &&& forall|i: int|
                0 <= i < t.transport_streams@.len() ==> {
                    let e = loop_entries(l, 6)->Ok_0[i];
                    let x = #[trigger] t.transport_streams@[i];
                    &&& x.transport_stream_id == word_at(e.head, 0)
                    &&& x.original_network_id == word_at(e.head, 2)
                    &&& x.descriptors@ == e.descriptors
                }
        }),
{
    lemma_section_accepted(s, s[0]);
    lemma_section_fields(s);
    let body = section_body(s);
    lemma_numbers_at(body, 0);
    assert(body[0] == s[8] && body[1] == s[9]);
    let at = 10 + length_at(s, 8);
    lemma_numbers_at(body, at - 8);
    assert(body[at - 8] == s[at] && body[at - 7] == s[at + 1]);
    assert(body.subrange(2, at - 8) =~= s.subrange(10, at));
    let l = s.subrange(at + 2, at + 2 + length_at(s, at));
    assert(nit_loop(body) =~= l);
    assert forall|i: int| 0 <= i < t.transport_streams@.len() implies {
        let e = loop_entries(l, 6)->Ok_0[i];
        let x = #[trigger] t.transport_streams@[i];
        &&& x.transport_stream_id == word_at(e.head, 0)
        &&& x.original_network_id == word_at(e.head, 2)
        &&& x.descriptors@ == e.descriptors
    } by {
        let e = loop_entries(l, 6)->Ok_0[i];
        assert(t.transport_streams@[i].reads(e));
        lemma_numbers_at(e.head, 0);
        lemma_numbers_at(e.head, 2);
    }
}

/// The values of the running status.
pub proof fn lemma_status_values(v: u8)
    ensures
        RunningStatus::coded(v) == RunningStatus::Undefined <==> v == 0,
        RunningStatus::coded(v) == RunningStatus::NotRunning <==> v == 1,
        RunningStatus::coded(v) == RunningStatus::StartsSoon <==> v == 2,
        RunningStatus::coded(v) == RunningStatus::Pausing <==> v == 3,
        RunningStatus::coded(v) == RunningStatus::Running <==> v == 4,
        RunningStatus::coded(v) == RunningStatus::OffAir <==> v == 5,
        v > 5 ==> RunningStatus::coded(v) == RunningStatus::Reserved(v),
{
}

/// A service of an SDT: its id, the two flags of the EIT in the last two bits of the
/// third byte, and the status and the flag of scrambling in the first four bits of the
/// fourth one.
pub proof fn lemma_service_says(t: SdtService, e: LoopEntry)
    requires
        t.reads(e),
    ensures
        t.service_id == word_at(e.head, 0),
        t.eit_schedule_flag == (e.head[2] / 2 % 2 == 1),
        t.eit_present_following_flag == (e.head[2] % 2 == 1),
        t.running_status == RunningStatus::coded(e.head[3] / 32),
        t.free_ca_mode == (e.head[3] / 16 % 2 == 1),
        t.descriptors@ == e.descriptors,
{
    lemma_numbers_at(e.head, 0);
    lemma_byte_bits(e.head[2]);
    lemma_byte_bits(e.head[3]);
}

/// An SDT describes the services of a transport stream: its own with `table_id` 0x42,
/// another with 0x46. The services have heads of five bytes.
pub proof fn lemma_sdt_says(t: ServiceDescriptionTable, s: Seq<u8>)
    requires
        sdt_error(s) is None,
        t.reads(s),
    ensures
        s[0] == 0x42 || s[0] == 0x46,
        t.other_transport_stream == (s[0] == 0x46),
        t.transport_stream_id == word_at(s, 3),
        t.version_number == s[5] / 2 % 32,
        t.current_next_indicator == (s[5] % 2 == 1),
        t.section_number == s[6],
        t.last_section_number == s[7],
        t.original_network_id == word_at(s, 8),
        ({
            let l = s.subrange(11, length_at(s, 1) - 1);
            &&& loop_entries(l, 5) is Ok
            &&& t.services@.len() == loop_entries(l, 5)->Ok_0.len()
            &&& forall|i: int|
                0 <= i < t.services@.len() ==> (#[trigger] t.services@[i]).reads(
                    loop_entries(l, 5)->Ok_0[i],
                )
        }),
{
    lemma_section_accepted(s, s[0]);
    lemma_section_fields(s);
    let body = section_body(s);
    lemma_numbers_at(body, 0);
    assert(body[0] == s[8] && body[1] == s[9]);
    assert(body.skip(3) =~= s.subrange(11, length_at(s, 1) - 1));
}

/// An event of an EIT: its id, its start as a day and six BCD digits, its duration as
/// six BCD digits, its status and the flag of scrambling.
pub proof fn lemma_event_says(t: EitEvent, e: LoopEntry)
    requires
        t.reads(e),
        e.head.len() == 12,
    ensures
        t.event_id == word_at(e.head, 0),
        t.start_time == utc_time_spec(e.head.subrange(2, 7)),
        t.duration.hours == digits(e.head[7]),
        t.duration.minutes == digits(e.head[8]),
        t.duration.seconds == digits(e.head[9]),
        t.running_status == RunningStatus::coded(e.head[10] / 32),
        t.free_ca_mode == (e.head[10] / 16 % 2 == 1),
        t.descriptors@ == e.descriptors,
{
    lemma_numbers_at(e.head, 0);
    lemma_byte_bits(e.head[10]);
    lemma_digits(e.head[7]);
    lemma_digits(e.head[8]);
    lemma_digits(e.head[9]);
}

/// An EIT has the events of a service: of its own transport stream with `table_id` 0x4E
/// and 0x50 to 0x5F, of another with 0x4F and 0x60 to 0x6F; the two former are present
/// and following, the ranges a schedule. The events have heads of twelve bytes.
pub proof fn lemma_eit_says(t: EventInformationTable, s: Seq<u8>)
    requires
        eit_error(s) is None,
        t.reads(s),
    ensures
        0x4E <= s[0] <= 0x6F,
        t.table_id == s[0],
        t.other_transport_stream == (s[0] == 0x4F || s[0] >= 0x60),
        t.schedule == (s[0] >= 0x50),
        t.service_id == word_at(s, 3),
        t.version_number == s[5] / 2 % 32,
        t.current_next_indicator == (s[5] % 2 == 1),
        t.section_number == s[6],
        t.last_section_number == s[7],
        t.transport_stream_id == word_at(s, 8),
        t.original_network_id == word_at(s, 10),
        t.segment_last_section_number == s[12],
        t.last_table_id == s[13],
        ({
            let l = s.subrange(14, length_at(s, 1) - 1);
            &&& loop_entries(l, 12) is Ok
            &&& t.events@.len() == loop_entries(l, 12)->Ok_0.len()
            &&& forall|i: int|
                0 <= i < t.events@.len() ==> (#[trigger] t.events@[i]).reads(
                    loop_entries(l, 12)->Ok_0[i],
                )
        }),
{
    lemma_section_accepted(s, s[0]);
    lemma_section_fields(s);
    let body = section_body(s);
    lemma_numbers_at(body, 0);
    lemma_numbers_at(body, 2);
    assert(body[0] == s[8] && body[1] == s[9] && body[2] == s[10] && body[3] == s[11]);
    assert(body[4] == s[12] && body[5] == s[13]);
    assert(body.skip(6) =~= s.subrange(14, length_at(s, 1) - 1));
}

/// Which `table_id`s are those of a NIT and of an EIT.
pub proof fn lemma_table_ids(id: u8)
    ensures
        nit_id(id) <==> id == 0x40 || id == 0x41,
        eit_id(id) <==> 0x4E <= id <= 0x6F,
        eit_schedule_id(id) <==> 0x50 <= id <= 0x6F,
        eit_other_id(id) <==> id == 0x4F || 0x60 <= id <= 0x6F,
{
}

/// When a table is accepted: its `table_id`, its frame and CRC, and lengths that fit.
pub proof fn lemma_tables_accepted(s: Seq<u8>)
    ensures
        pmt_error(s) is None <==> {
            let l = s.subrange(12 + length_at(s, 10), length_at(s, 1) - 1);
            &&& section_error(s, 0x02) is None
            &&& length_at(s, 1) - 9 >= 4 + length_at(s, 10)
            &&& loop_entries(l, 5) is Ok
        },
        sdt_error(s) is None <==> {
            &&& s.len() > 0 && (s[0] == 0x42 || s[0] == 0x46)
            &&& section_error(s, s[0]) is None
            &&& length_at(s, 1) - 9 >= 3
            &&& loop_entries(s.subrange(11, length_at(s, 1) - 1), 5) is Ok
        },
        eit_error(s) is None <==> {
            &&& s.len() > 0 && 0x4E <= s[0] <= 0x6F
            &&& section_error(s, s[0]) is None
            &&& length_at(s, 1) - 9 >= 6
            &&& loop_entries(s.subrange(14, length_at(s, 1) - 1), 12) is Ok
        },
{
    lemma_section_accepted(s, 0x02);
    lemma_section_accepted(s, s[0]);
    if 12 <= section_total(s) <= s.len() {
        lemma_section_fields(s);
        let body = section_body(s);
        if body.len() >= 4 {
            lemma_numbers_at(body, 2);
            assert(body[2] == s[10] && body[3] == s[11]);
            if body.len() >= 4 + length_at(s, 10) {
                assert(pmt_loop(body) =~= s.subrange(
                    12 + length_at(s, 10),
                    length_at(s, 1) - 1,
                ));
            }
        }
        if body.len() >= 3 {
            assert(body.skip(3) =~= s.subrange(11, length_at(s, 1) - 1));
        }
        if body.len() >= 6 {
            assert(body.skip(6) =~= s.subrange(14, length_at(s, 1) - 1));
        }
    }
}

/// A time is a day, counted from 17 November 1858, in two bytes, and hours, minutes and
/// seconds in two BCD digits each. Five bytes of ones are no time.
pub proof fn lemma_time_says(b: Seq<u8>)
    requires
        b.len() == 5,
    ensures
        utc_time_spec(b) is None <==> forall|i: int| 0 <= i < 5 ==> b[i] == 255,
        utc_time_spec(b) matches Some(t) ==> {
            &&& t.mjd == 256 * b[0] + b[1]
            &&& t.hour == digits(b[2])
            &&& t.minute == digits(b[3])
            &&& t.second == digits(b[4])
            &&& t.year == civil_date(t.mjd as int).year
            &&& t.month == civil_date(t.mjd as int).month
            &&& t.day == civil_date(t.mjd as int).day
        },
{
    lemma_numbers_at(b, 0);
    lemma_digits(b[2]);
    lemma_digits(b[3]);
    lemma_digits(b[4]);
    lemma_date_in_range(word_at(b, 0));
    assert(b[0] == 255 && b[1] == 255 && b[2] == 255 && b[3] == 255 && b[4] == 255
        ==> forall|i: int| 0 <= i < 5 ==> b[i] == 255);
}

/// When a TDT and a TOT are accepted: a TDT has `table_id` 0x70 and the five bytes of a
/// time; a TOT has 0x73, a time, descriptors behind their length, and the CRC of all of
/// it.
pub proof fn lemma_time_tables_accepted(s: Seq<u8>)
    ensures
        tdt_error(s) is None <==> {
            &&& s.len() >= 3
            &&& s[0] == 0x70
            &&& 5 <= length_at(s, 1) <= s.len() - 3
        },
        tot_error(s) is None <==> {
            let n = length_at(s, 1);
            &&& s.len() >= 3
            &&& s[0] == 0x73
            &&& 11 + length_at(s, 8) <= n <= s.len() - 3
            &&& crc_of(s.subrange(0, n - 1)) == crc_at(s, n - 1)
        },
{
    lemma_short_section_accepted(s);
    lemma_numbers_at(s, 1);
    lemma_numbers_at(s, 8);
    lemma_numbers_at(s, section_total(s) - 4);
}

/// The PIDs and ids that tables have for themselves.
pub proof fn lemma_assigned_numbers()
    ensures
        PAT_PID == 0x00 && CAT_PID == 0x01 && TSDT_PID == 0x02,
        NIT_PID == 0x10 && SDT_PID == 0x11 && EIT_PID == 0x12 && TDT_TOT_PID == 0x14,
        PAT_TABLE_ID == 0x00 && CAT_TABLE_ID == 0x01 && PMT_TABLE_ID == 0x02,
        TSDT_TABLE_ID == 0x03 && TDT_TABLE_ID == 0x70 && TOT_TABLE_ID == 0x73,
{
}

} // verus!
