use oxideav_mpegts::build::{
    build_eit_pf, build_nit, build_pat, build_pmt, build_sdt, encode_utc_time,
    iso639_language_descriptor, network_name_descriptor, service_descriptor,
    service_list_descriptor, short_event_descriptor, stream_identifier_descriptor,
    teletext_descriptor, EitEventEntry, NitTsEntry, PmtStreamEntry, SdtServiceEntry,
};
use oxideav_mpegts::clock::{
    extend_near, ContinuityEvent, ContinuityTracker, PCR_MODULUS_27MHZ, TIMESTAMP_MODULUS,
};
use oxideav_mpegts::descriptor::{iter_descriptors, DescriptorBody, TeletextEntry};
use oxideav_mpegts::muxer::packets::packets_needed;
use oxideav_mpegts::muxer::pes::build_pes;
use oxideav_mpegts::muxer::plan::FIRST_ES_PID;
use oxideav_mpegts::muxer::{
    stream_type_for_codec, MpegTsMuxConfig, MpegTsMuxer, MuxError, MuxPacket, MuxStream,
    ProgramSpec, SeamlessSpliceSpec, SpliceSpec,
};
use oxideav_mpegts::packet::{
    detect_packet_layout, iter_packets, AdaptationFieldExtensionSpec, AdaptationFieldSpec, TsPacket,
    TsPacketLayout, TS_PACKET_LEN,
};
use oxideav_mpegts::pes::{
    has_optional_pes_header, DsmTrickMode, PesExtension, PesHeaderSpec, PesPacket, PesReassembler,
};
use oxideav_mpegts::psi::{
    decode_utc_time, mpeg2_crc32, EitDateTime, EitDuration, EventInformationTable,
    NetworkInformationTable, ProgramAssociationTable, ProgramMapTable, PsiSectionAssembler,
    RunningStatus, ServiceDescriptionTable,
};
use oxideav_mpegts::stream_type::StreamType;
use oxideav_mpegts::tstd::{
    arrival_schedule, packet_pieces, pcr_samples, ArrivalClock, ByteClass, ClassifiedRun, PcrSample,
    PesScanner, Route, TStdBranch, TStdConfig, TStdStreamModel,
};
use oxideav_mpegts::validate::validate_ts;
use oxideav_mpegts::TsError;

// ---------------------------------------------------------------------------
// Packets and framings
// ---------------------------------------------------------------------------

/// A packet of `pid` that holds nothing but payload.
fn payload_packet(pid: u16, start: bool, cc: u8, byte: u8) -> Vec<u8> {
    let mut p = vec![byte; TS_PACKET_LEN];
    p[0] = 0x47;
    p[1] = if start { 0x40 } else { 0 } | (pid >> 8) as u8;
    p[2] = pid as u8;
    p[3] = 0x10 | (cc & 0x0F);
    p
}

#[test]
fn packet_errors_name_what_is_missing() {
    assert_eq!(
        TsPacket::parse(&[0x47; 10]).unwrap_err(),
        TsError::Truncated {
            what: "TS packet",
            have: 10,
            need: 188
        }
    );
    let mut p = payload_packet(0x100, false, 0, 0xFF);
    p[0] = 0x46;
    assert_eq!(TsPacket::parse(&p).unwrap_err(), TsError::BadSyncByte(0x46));
    let mut q = payload_packet(0x100, false, 0, 0xFF);
    q[3] = 0x30;
    q[4] = 184;
    assert_eq!(
        TsPacket::parse(&q).unwrap_err(),
        TsError::Truncated {
            what: "TS adaptation_field",
            have: 184,
            need: 185
        }
    );
}

#[test]
fn framings_are_told_apart() {
    let plain: Vec<u8> = (0..4)
        .flat_map(|i| payload_packet(0x100, false, i, 0xAA))
        .collect();
    let mut prefixed = Vec::new();
    let mut trailed = Vec::new();
    for p in plain.chunks(TS_PACKET_LEN) {
        prefixed.extend_from_slice(&[1, 2, 3, 4]);
        prefixed.extend_from_slice(p);
        trailed.extend_from_slice(p);
        trailed.extend_from_slice(&[9; 16]);
    }
    assert_eq!(
        detect_packet_layout(&plain),
        Some(TsPacketLayout::STANDARD)
    );
    assert_eq!(
        detect_packet_layout(&prefixed),
        Some(TsPacketLayout::PREFIXED_192)
    );
    assert_eq!(
        detect_packet_layout(&trailed),
        Some(TsPacketLayout::TRAILER_204)
    );
    assert_eq!(detect_packet_layout(&[0u8; 400]), None);
    assert_eq!(detect_packet_layout(&plain[..100]), None);
    assert_eq!(TsPacketLayout::PREFIXED_192.packet_size(), 192);
    assert_eq!(TsPacketLayout::PREFIXED_192.sync_offset(), 4);
    assert_eq!(
        TsPacketLayout::PREFIXED_192.window(&prefixed[..192]),
        &plain[..188]
    );
}

#[test]
fn framing_does_not_change_the_verdict() {
    let mut plain = Vec::new();
    plain.extend(payload_packet(0x100, false, 0, 0xAA));
    plain.extend(payload_packet(0x100, false, 5, 0xAA));
    plain.extend(payload_packet(0x1FFF, false, 0, 0xFF));
    let mut trailed = Vec::new();
    for p in plain.chunks(TS_PACKET_LEN) {
        trailed.extend_from_slice(p);
        trailed.extend_from_slice(&[0; 16]);
    }
    let a = validate_ts(&plain);
    let b = validate_ts(&trailed);
    assert_eq!(a.packets, 3);
    assert_eq!(b.packets, 3);
    assert_eq!(a.null_packets, 1);
    assert_eq!(b.null_packets, 1);
    assert_eq!(a.violations.continuity_errors, 1);
    assert_eq!(b.violations.continuity_errors, 1);
    assert!(!a.is_conformant());
}

#[test]
fn adaptation_field_errors_name_the_rule() {
    let wide = AdaptationFieldSpec::with_pcr(1 << 33, 0);
    assert_eq!(
        wide.encode(None).unwrap_err(),
        TsError::InvalidField {
            what: "PCR base exceeds 33 bits"
        }
    );
    let lone = AdaptationFieldSpec {
        opcr: Some((1, 1)),
        ..Default::default()
    };
    assert_eq!(
        lone.encode(None).unwrap_err(),
        TsError::InvalidField {
            what: "OPCR without PCR"
        }
    );
    assert_eq!(
        AdaptationFieldSpec::default().encode(Some(185)).unwrap_err(),
        TsError::InvalidField {
            what: "adaptation field padding beyond 184 bytes"
        }
    );
    let seamless = AdaptationFieldSpec {
        splice_countdown: Some(-3),
        extension: Some(AdaptationFieldExtensionSpec {
            seamless_splice: Some((2, 77)),
            ..Default::default()
        }),
        ..Default::default()
    };
    assert!(!seamless.is_empty());
    let raw = seamless.encode(Some(20)).unwrap();
    assert_eq!(raw.len(), 20);
    assert_eq!(raw[0], 19);
    assert_eq!(&raw[1..3], &[0x05, 0xFD]);
    assert!(raw[10..].iter().all(|b| *b == 0xFF));
}

// ---------------------------------------------------------------------------
// PES
// ---------------------------------------------------------------------------

#[test]
fn pes_header_survives_the_round_trip() {
    let spec = PesHeaderSpec {
        stream_id: 0xE0,
        pts_90k: Some(0x1_2345_6789),
        dts_90k: Some(0x1_2345_0000),
        trick_mode: Some(DsmTrickMode::from_byte(0b0110_0101)),
        unbounded_length: true,
        ..Default::default()
    };
    let bytes = spec.encode(&[7, 8, 9]).unwrap();
    let back = PesPacket::parse(&bytes).unwrap();
    assert_eq!(back.pts_90k, Some(0x1_2345_6789));
    assert_eq!(back.dts_90k, Some(0x1_2345_0000));
    assert_eq!(back.dsm_trick_mode, Some(0b0110_0101));
    assert_eq!(back.payload, vec![7, 8, 9]);
    assert!(!back.random_access);
}

#[test]
fn pes_extension_ends_with_its_last_part() {
    // Private data, a pack header of 3 bytes, the counter, the P-STD buffer, and
    // an extension field of 2 bytes.
    let mut e = vec![0xF1 | 0x0E];
    e.extend([7u8; 16]);
    e.extend([3, 1, 2, 3]);
    e.extend([0x81, 0x40]);
    e.extend([0x60, 0x05]);
    e.extend([0x82, 9, 8]);
    let whole = e.len();
    assert_eq!(whole, 1 + 16 + 4 + 2 + 2 + 3);
    let (x, used) = PesExtension::parse(&e).unwrap();
    assert_eq!(used, whole);
    assert_eq!(x.private_data, Some([7; 16]));
    assert_eq!(x.pack_header, Some(vec![1, 2, 3]));
    assert_eq!(x.extension_field_2, Some(vec![9, 8]));
    let mut longer = e.clone();
    longer.extend([0xAA; 5]);
    assert_eq!(PesExtension::parse(&longer).unwrap(), (x, whole));
    for k in 0..whole {
        assert!(matches!(
            PesExtension::parse(&e[..k]),
            Err(TsError::Truncated { .. })
        ));
    }
    assert_eq!(PesExtension::parse(&[0x0E, 1, 2]).unwrap().1, 1);
}

#[test]
fn headerless_streams_take_no_fields() {
    assert!(!has_optional_pes_header(0xBE));
    assert!(has_optional_pes_header(0xE0));
    let spec = PesHeaderSpec {
        stream_id: 0xBE,
        pts_90k: Some(1),
        ..Default::default()
    };
    assert!(spec.encode(&[]).is_err());
    let bare = PesHeaderSpec {
        stream_id: 0xBE,
        ..Default::default()
    };
    assert_eq!(bare.encode(&[0xFF; 4]).unwrap().len(), 10);
}

#[test]
fn reassembly_joins_and_marks() {
    let pes = PesHeaderSpec {
        stream_id: 0xC0,
        pts_90k: Some(900),
        ..Default::default()
    }
    .encode(&vec![0x5A; 300])
    .unwrap();
    let mut first = payload_packet(0x100, true, 0, 0);
    first[4..].copy_from_slice(&pes[..184]);
    let mut second = vec![0xFFu8; TS_PACKET_LEN];
    let tail = &pes[184..];
    let af = AdaptationFieldSpec::default()
        .encode(Some(184 - tail.len()))
        .unwrap();
    second[0] = 0x47;
    second[1] = 0x01;
    second[2] = 0x00;
    second[3] = 0x31;
    second[4..4 + af.len()].copy_from_slice(&af);
    second[4 + af.len()..].copy_from_slice(tail);
    let mut joiner = PesReassembler::new();
    assert!(joiner
        .feed(&TsPacket::parse(&second).unwrap())
        .unwrap()
        .is_none());
    assert!(joiner
        .feed(&TsPacket::parse(&first).unwrap())
        .unwrap()
        .is_none());
    assert!(joiner
        .feed(&TsPacket::parse(&second).unwrap())
        .unwrap()
        .is_none());
    let unit = joiner.flush().unwrap().unwrap();
    assert_eq!(unit.payload, vec![0x5A; 300]);
    assert_eq!(unit.pts_90k, Some(900));
    assert!(!unit.random_access);
    assert!(joiner.flush().unwrap().is_none());
}

// ---------------------------------------------------------------------------
// Tables and descriptors
// ---------------------------------------------------------------------------

#[test]
fn sealed_sections_have_crc_zero() {
    let pat = build_pat(7, 3, &[(1, 0x100), (2, 0x1FF0)]);
    assert_eq!(mpeg2_crc32(&pat), 0);
    let back = ProgramAssociationTable::parse(&pat).unwrap();
    assert_eq!(back.transport_stream_id, 7);
    assert_eq!(back.version_number, 3);
    assert_eq!(back.programs, vec![(1, 0x100), (2, 0x1FF0)]);
    let mut broken = pat.clone();
    broken[8] ^= 1;
    assert!(matches!(
        ProgramAssociationTable::parse(&broken),
        Err(TsError::PsiCrcMismatch { .. })
    ));
}

#[test]
fn pmt_survives_the_round_trip() {
    let info = stream_identifier_descriptor(9);
    let section = build_pmt(
        5,
        0,
        0x111,
        &info,
        &[
            PmtStreamEntry {
                stream_type: 0x1B,
                elementary_pid: 0x111,
                es_info: Vec::new(),
            },
            PmtStreamEntry {
                stream_type: 0x81,
                elementary_pid: 0x112,
                es_info: iso639_language_descriptor(&[(*b"deu", 1)]),
            },
        ],
    );
    let pmt = ProgramMapTable::parse(&section).unwrap();
    assert_eq!(pmt.program_number, 5);
    assert_eq!(pmt.pcr_pid, 0x111);
    assert_eq!(pmt.program_info, info);
    assert_eq!(pmt.streams.len(), 2);
    assert_eq!(pmt.streams[1].elementary_pid, 0x112);
    match pmt.streams[1].iter_descriptors().next().unwrap().unwrap().body {
        DescriptorBody::Iso639Language(v) => {
            assert_eq!(v[0].language, *b"deu");
            assert_eq!(v[0].audio_type, 1);
        }
        other => panic!("{other:?}"),
    }
}

#[test]
fn si_tables_survive_the_round_trip() {
    let sdt = build_sdt(
        true,
        1,
        2,
        0,
        &[SdtServiceEntry {
            service_id: 0x64,
            eit_schedule: false,
            eit_present_following: true,
            running_status: RunningStatus::Running,
            free_ca_mode: true,
            descriptors: service_descriptor(1, b"prov", b"name"),
        }],
    );
    let sdt = ServiceDescriptionTable::parse(&sdt).unwrap();
    assert_eq!(sdt.services[0].service_id, 0x64);
    assert!(sdt.services[0].free_ca_mode);
    let nit = build_nit(
        false,
        0x3000,
        1,
        &network_name_descriptor(b"net"),
        &[NitTsEntry {
            transport_stream_id: 8,
            original_network_id: 9,
            descriptors: service_list_descriptor(&[(1, 2)]),
        }],
    );
    let nit = NetworkInformationTable::parse(&nit).unwrap();
    assert_eq!(nit.network_id, 0x3000);
    assert_eq!(nit.transport_streams[0].original_network_id, 9);
    let when = EitDateTime {
        year: 2024,
        month: 2,
        day: 29,
        hour: 23,
        minute: 59,
        second: 58,
        mjd: 0,
    };
    let eit = build_eit_pf(
        true,
        0x64,
        1,
        2,
        0,
        &[EitEventEntry {
            event_id: 3,
            start_time: Some(when),
            duration: EitDuration {
                hours: 1,
                minutes: 2,
                seconds: 3,
            },
            running_status: RunningStatus::NotRunning,
            free_ca_mode: false,
            descriptors: short_event_descriptor(*b"eng", b"News", b"at ten"),
        }],
    );
    let eit = EventInformationTable::parse(&eit).unwrap();
    let e = &eit.events[0];
    let t = e.start_time.unwrap();
    assert_eq!((t.year, t.month, t.day), (2024, 2, 29));
    assert_eq!((t.hour, t.minute, t.second), (23, 59, 58));
    assert_eq!(t.mjd, 60_369);
    assert_eq!(e.duration.as_seconds(), 3_723);
}

#[test]
fn times_survive_the_round_trip() {
    let bytes = encode_utc_time(Some(EitDateTime {
        year: 1993,
        month: 10,
        day: 13,
        hour: 12,
        minute: 45,
        second: 0,
        mjd: 0,
    }));
    assert_eq!(bytes, [0xC0, 0x79, 0x12, 0x45, 0x00]);
    let back = decode_utc_time(bytes).unwrap();
    assert_eq!((back.year, back.month, back.day), (1993, 10, 13));
    assert_eq!(encode_utc_time(None), [0xFF; 5]);
    assert!(decode_utc_time([0xFF; 5]).is_none());
}

fn date_of(mjd: u16) -> (i32, u8, u8) {
    let b = mjd.to_be_bytes();
    let d = decode_utc_time([b[0], b[1], 0, 0, 0]).unwrap();
    assert_eq!(d.mjd, mjd);
    (i32::from(d.year), d.month, d.day)
}

#[test]
fn every_day_number_is_a_calendar_day() {
    assert_eq!(date_of(0), (1858, 11, 17));
    assert_eq!(date_of(14), (1858, 12, 1));
    assert_eq!(date_of(45), (1859, 1, 1));
    assert_eq!(date_of(15_019), (1899, 12, 31));
    assert_eq!(date_of(15_078), (1900, 2, 28));
    assert_eq!(date_of(15_079), (1900, 3, 1));
    assert_eq!(date_of(51_603), (2000, 2, 29));
    assert_eq!(date_of(65_535), (2038, 4, 22));
    for mjd in 0..=u16::MAX {
        let b = mjd.to_be_bytes();
        let field = [b[0], b[1], 0x23, 0x59, 0x58];
        let d = decode_utc_time(field).unwrap();
        assert!((1..=12).contains(&d.month) && (1..=31).contains(&d.day));
        assert_eq!((d.hour, d.minute, d.second), (23, 59, 58));
        assert_eq!(encode_utc_time(Some(d)), field);
    }
}

#[test]
fn descriptors_are_walked_in_order() {
    let mut run = stream_identifier_descriptor(4);
    run.extend(teletext_descriptor(&[TeletextEntry {
        language_code: *b"fra",
        teletext_type: 2,
        teletext_magazine_number: 5,
        teletext_page_number: 0x77,
    }]));
    run.extend(service_list_descriptor(&[(0x0102, 3)]));
    let mut it = iter_descriptors(&run);
    match it.next().unwrap().unwrap().body {
        DescriptorBody::StreamIdentifier(s) => assert_eq!(s.component_tag, 4),
        other => panic!("{other:?}"),
    }
    match it.next().unwrap().unwrap().body {
        DescriptorBody::Teletext(t) => {
            assert_eq!(t.entries[0].teletext_type, 2);
            assert_eq!(t.entries[0].teletext_magazine_number, 5);
            assert_eq!(t.entries[0].teletext_page_number, 0x77);
        }
        other => panic!("{other:?}"),
    }
    match it.next().unwrap().unwrap().body {
        DescriptorBody::Raw(d) => assert_eq!(d, &[0x01, 0x02, 3][..]),
        other => panic!("{other:?}"),
    }
    assert!(it.next().is_none());
    let mut short = iter_descriptors(&[0x52, 4, 1]);
    assert_eq!(
        short.next().unwrap().unwrap_err(),
        TsError::Truncated {
            what: "descriptor data",
            have: 1,
            need: 4
        }
    );
    assert!(short.next().is_none());
}

#[test]
fn long_texts_are_cut_off() {
    let d = service_descriptor(1, &[b'p'; 300], b"lost");
    assert_eq!(d.len(), 257);
    match iter_descriptors(&d).next().unwrap().unwrap().body {
        DescriptorBody::Service(s) => {
            assert_eq!(s.service_provider_name.len(), 252);
            assert_eq!(s.service_name.len(), 0);
        }
        other => panic!("{other:?}"),
    }
}

#[test]
fn section_spread_over_packets_is_gathered() {
    let big = build_pmt(1, 0, 0x100, &vec![0x42; 400], &[]);
    let mut joint = PsiSectionAssembler::new();
    let mut start = vec![0u8];
    start.extend_from_slice(&big[..183]);
    assert!(joint.feed(&start, true, 15).unwrap().is_empty());
    assert!(joint.feed(&big[183..367], false, 0).unwrap().is_empty());
    let mut last = big[367..].to_vec();
    last.resize(184, 0xFF);
    assert_eq!(joint.feed(&last, false, 1).unwrap(), vec![big]);
}

// ---------------------------------------------------------------------------
// Clocks and classes
// ---------------------------------------------------------------------------

#[test]
fn continuity_counters_are_classified() {
    let mut c = ContinuityTracker::new();
    assert_eq!(c.observe(15, true, false), ContinuityEvent::Continuous);
    assert_eq!(c.observe(0, true, false), ContinuityEvent::Continuous);
    assert_eq!(c.observe(0, true, false), ContinuityEvent::Duplicate);
    assert!(matches!(
        c.observe(0, true, false),
        ContinuityEvent::Dropped { .. }
    ));
    assert_eq!(c.observe(9, false, false), ContinuityEvent::NoPayload);
    assert_eq!(
        c.observe(4, true, false),
        ContinuityEvent::Dropped { gap: 3 }
    );
    assert_eq!(c.observe(11, true, true), ContinuityEvent::Discontinuity);
    assert_eq!(c.observe(12, true, false), ContinuityEvent::Continuous);
}

#[test]
fn timestamps_are_extended_to_the_nearest() {
    let m = TIMESTAMP_MODULUS as u128;
    assert_eq!(extend_near(5, 10), 5);
    assert_eq!(extend_near(5, m - 10), m + 5);
    assert_eq!(extend_near((m - 10) as u64, m + 5), m - 10);
    assert_eq!(extend_near((m - 10) as u64, 5), m - 10);
    assert_eq!(extend_near(7, 3 * m + 7), 3 * m + 7);
}

#[test]
fn stream_types_are_in_one_class_at_most() {
    for b in 0..=255u8 {
        let t = StreamType::from_raw(b);
        assert_eq!(t.as_raw(), b);
        let n = [
            t.is_video(),
            t.is_audio(),
            t.is_subtitle(),
            t.is_metadata(),
            t.is_private(),
        ]
        .iter()
        .filter(|x| **x)
        .count();
        assert!(n <= 1, "{b:#x}");
    }
}

// ---------------------------------------------------------------------------
// The buffer model
// ---------------------------------------------------------------------------

#[test]
fn model_parameters_follow_the_formulas() {
    let low = TStdStreamModel::video_low_main_level(15_000_000, 100_000, 229_376);
    assert_eq!(low.rx_bps, 18_000_000);
    assert_eq!(
        low.branch,
        TStdBranch::Video {
            rbx_bps: 15_000_000,
            mb_size: 7_500 + 2_500 + 129_376,
            eb_size: 100_000
        }
    );
    let high = TStdStreamModel::video_high_level(24_000_000, 12_000_000, 1_000);
    assert_eq!(
        high.branch,
        TStdBranch::Video {
            rbx_bps: 12_600_000,
            mb_size: 12_000 + 4_000,
            eb_size: 1_000
        }
    );
    let capped = TStdStreamModel::video_high_level(24_000_000, 24_000_000, 1_000);
    assert!(matches!(
        capped.branch,
        TStdBranch::Video {
            rbx_bps: 24_000_000,
            ..
        }
    ));
    assert_eq!(
        TStdStreamModel::audio().branch,
        TStdBranch::Main { buffer_size: 3584 }
    );
}

#[test]
fn packets_are_routed_to_their_buffers() {
    let c = TStdConfig::single_program(
        0x101,
        0x100,
        vec![
            (0x101, TStdStreamModel::audio()),
            (0x102, TStdStreamModel::audio()),
            (0x101, TStdStreamModel::audio()),
        ],
    );
    assert_eq!(c.route(0x101), Route::Stream(0));
    assert_eq!(c.route(0x102), Route::Stream(1));
    assert_eq!(c.route(0), Route::System);
    assert_eq!(c.route(1), Route::System);
    assert_eq!(c.route(0x100), Route::System);
    assert_eq!(c.route(0x10), Route::Nowhere);
}

#[test]
fn pes_bytes_are_classified_however_they_are_cut() {
    let pes = PesHeaderSpec {
        stream_id: 0xE0,
        pts_90k: Some(9_000),
        dts_90k: Some(6_000),
        unbounded_length: true,
        ..Default::default()
    }
    .encode(&[1; 30])
    .unwrap();
    let mut runs = Vec::new();
    let mut whole = PesScanner::default();
    whole.feed(&pes, true, &mut runs);
    assert_eq!(
        runs,
        vec![
            ClassifiedRun {
                offset: 0,
                len: 19,
                class: ByteClass::Header,
                decode_ts: Some(6_000)
            },
            ClassifiedRun {
                offset: 19,
                len: 30,
                class: ByteClass::Payload,
                decode_ts: None
            },
        ]
    );
    for cut in 1..pes.len() {
        let mut s = PesScanner::default();
        let mut headers = 0;
        let mut stamps = Vec::new();
        s.feed(&pes[..cut], true, &mut runs);
        for r in &runs {
            if r.class == ByteClass::Header {
                headers += r.len;
            }
            stamps.extend(r.decode_ts);
        }
        s.feed(&pes[cut..], false, &mut runs);
        for r in &runs {
            if r.class == ByteClass::Header {
                headers += r.len;
            }
            stamps.extend(r.decode_ts);
        }
        assert_eq!(headers, 19);
        assert_eq!(stamps, vec![6_000]);
    }
    let mut idle = PesScanner::default();
    idle.feed(&pes, false, &mut runs);
    assert!(runs.is_empty());
}

#[test]
fn packets_are_split_into_pieces() {
    let p = payload_packet(0x100, false, 0, 3);
    let mut s = PesScanner::default();
    let pieces = packet_pieces(&mut s, &TsPacket::parse(&p).unwrap());
    assert_eq!(pieces.len(), 1);
    assert_eq!(pieces[0].len, 4);
    assert_eq!(pieces[0].class, ByteClass::Overhead);
    let mut start = payload_packet(0x100, true, 1, 0);
    start[4..13].copy_from_slice(&[0, 0, 1, 0xC0, 0, 0, 0x80, 0, 0]);
    let pieces = packet_pieces(&mut s, &TsPacket::parse(&start).unwrap());
    assert_eq!(
        pieces.iter().map(|r| (r.offset, r.len)).collect::<Vec<_>>(),
        vec![(0, 4), (4, 9), (13, 175)]
    );
    let video = TStdBranch::Video {
        rbx_bps: 1,
        mb_size: 1,
        eb_size: 1,
    };
    let main = TStdBranch::Main { buffer_size: 1 };
    let removed: Vec<(usize, usize)> = pieces
        .iter()
        .map(|r| (r.removed_from(&main), r.removed_from(&video)))
        .collect();
    assert_eq!(removed, vec![(0, 0), (9, 0), (175, 175)]);
}

fn sample(pos: u64, pcr: u64, discontinuity: bool) -> PcrSample {
    PcrSample {
        pos,
        pcr,
        discontinuity,
    }
}

#[test]
fn arrival_schedule_survives_wraps_and_new_bases() {
    let m = PCR_MODULUS_27MHZ;
    let s = arrival_schedule(&[
        sample(10, m - 100, false),
        sample(198, 50, false),
        sample(386, 7_000, true),
        sample(574, 7_300, false),
    ])
    .unwrap();
    assert_eq!(s.len(), 3);
    assert_eq!((s[0].rate_bytes, s[0].rate_ticks), (188, 150));
    assert_eq!(s[1].pcr, m as u128 + 50);
    assert!(s[1].rebased);
    assert_eq!((s[1].rate_bytes, s[1].rate_ticks), (188, 150));
    assert_eq!(s[2].pcr, 7_000);
    assert_eq!(s[2].rate_ticks, 300);
    let mut clock = ArrivalClock::build(&[sample(10, 0, false), sample(198, 9, false)]).unwrap();
    assert_eq!(clock.interval_at(0), 0);
    assert_eq!(clock.interval_at(1_000), 0);
    assert_eq!(clock.intervals().len(), 1);
}

#[test]
fn unusable_references_are_refused() {
    assert_eq!(
        arrival_schedule(&[sample(10, 0, false)]).unwrap_err(),
        TsError::Unsupported("T-STD model needs at least two PCRs on the PCR_PID")
    );
    assert_eq!(
        arrival_schedule(&[sample(10, 5, false), sample(198, 5, false)]).unwrap_err(),
        TsError::Unsupported("T-STD model: repeated PCR value on the PCR_PID")
    );
    assert_eq!(
        arrival_schedule(&[sample(10, 5, false), sample(198, 9, true)]).unwrap_err(),
        TsError::Unsupported("T-STD model: discontinuity before any rate is established")
    );
    assert_eq!(
        arrival_schedule(&[sample(10, 5, false), sample(10, 9, false)]).unwrap_err(),
        TsError::Unsupported("T-STD model: no usable PCR interval on the PCR_PID")
    );
}

#[test]
fn references_are_sampled_with_their_positions() {
    let mut ts = Vec::new();
    for (i, d) in [(0u64, false), (1, true)] {
        let mut p = payload_packet(0x101, false, 0, 0);
        p[3] = 0x20;
        let af = AdaptationFieldSpec {
            discontinuity_indicator: d,
            pcr: Some((i + 1, 2)),
            ..Default::default()
        }
        .encode(Some(184))
        .unwrap();
        p[4..].copy_from_slice(&af);
        ts.extend(p);
        ts.extend(payload_packet(0x1FFF, false, 0, 0xFF));
    }
    assert_eq!(
        pcr_samples(&ts, TsPacketLayout::STANDARD, 0x101),
        vec![sample(10, 302, false), sample(386, 602, true)]
    );
    assert!(pcr_samples(&ts, TsPacketLayout::STANDARD, 0x102).is_empty());
}

// ---------------------------------------------------------------------------
// The multiplexer
// ---------------------------------------------------------------------------

fn stream(index: u32, codec: &str) -> MuxStream {
    MuxStream {
        index,
        codec_id: codec.to_string(),
        language: None,
    }
}

fn frame(stream_index: u32, pts: Option<i64>, dts: Option<i64>, data: Vec<u8>) -> MuxPacket {
    MuxPacket {
        stream_index,
        pts,
        dts,
        keyframe: false,
        data,
    }
}

fn program(number: u16, indices: &[u32]) -> ProgramSpec {
    ProgramSpec {
        program_number: number,
        pmt_pid: 0x100 + number,
        pcr_pid: None,
        stream_indices: indices.to_vec(),
        service: None,
        events: Vec::new(),
        es_descriptors: Vec::new(),
    }
}

fn config(programs: Vec<ProgramSpec>) -> MpegTsMuxConfig {
    MpegTsMuxConfig {
        transport_stream_id: 1,
        original_network_id: 1,
        programs,
        network: None,
    }
}

fn refusal(streams: &[MuxStream], programs: Vec<ProgramSpec>) -> MuxError {
    match MpegTsMuxer::with_config(streams, &config(programs)) {
        Ok(_) => panic!("accepted"),
        Err(e) => e,
    }
}

#[test]
fn configurations_are_refused_for_a_reason() {
    let two = [stream(0, "h264"), stream(1, "ac3")];
    assert_eq!(refusal(&[], vec![program(1, &[0])]), MuxError::NoStreams);
    assert_eq!(refusal(&two, Vec::new()), MuxError::NoPrograms);
    assert_eq!(
        refusal(&two, vec![program(0, &[0])]),
        MuxError::ReservedProgramNumber
    );
    assert_eq!(
        refusal(&two, vec![program(1, &[5])]),
        MuxError::UnknownStream {
            program_number: 1,
            stream_index: 5
        }
    );
    assert_eq!(
        refusal(&two, vec![program(1, &[0]), program(2, &[0])]),
        MuxError::StreamAssignedTwice { stream_index: 0 }
    );
    assert_eq!(
        refusal(&[stream(3, "opus")], vec![program(1, &[3])]),
        MuxError::UnsupportedCodec { stream_index: 3 }
    );
    assert_eq!(
        refusal(&two, vec![program(4, &[])]),
        MuxError::EmptyProgram { program_number: 4 }
    );
}

#[test]
fn calls_are_refused_for_a_reason() {
    let mut m = MpegTsMuxer::new(&[stream(0, "h264"), stream(1, "ac3")]).unwrap();
    assert_eq!(
        m.write_packet(&frame(0, Some(1), None, vec![1])),
        Err(MuxError::HeaderNotWritten)
    );
    m.write_header();
    assert_eq!(
        m.write_packet(&frame(7, Some(1), None, vec![1])),
        Err(MuxError::NoSuchStream { stream_index: 7 })
    );
    assert_eq!(
        m.write_packet(&frame(0, None, Some(1), vec![1])),
        Err(MuxError::Format(TsError::InvalidField {
            what: "DTS without PTS"
        }))
    );
    assert_eq!(
        m.signal_splice_after(7, SpliceSpec::default()),
        Err(MuxError::NoSuchStream { stream_index: 7 })
    );
    let seamless = |splice_type: u8, dts_next_au: u64| SpliceSpec {
        seamless: Some(SeamlessSpliceSpec {
            splice_type,
            dts_next_au,
        }),
        ..Default::default()
    };
    assert_eq!(
        m.signal_splice_after(0, seamless(16, 0)),
        Err(MuxError::SpliceTypeTooWide)
    );
    assert_eq!(
        m.signal_splice_after(0, seamless(0, 1 << 33)),
        Err(MuxError::DtsNextAuTooWide)
    );
    assert_eq!(
        m.signal_splice_after(1, seamless(1, 0)),
        Err(MuxError::SpliceTypeNotVideo)
    );
    assert_eq!(
        m.signal_time_base_discontinuity(9),
        Err(MuxError::NoSuchProgram { program_number: 9 })
    );
}

#[test]
fn late_frames_are_refused() {
    let mut m = MpegTsMuxer::new(&[stream(0, "h264")]).unwrap();
    m.set_mux_rate(Some(100_000));
    m.write_header();
    m.write_packet(&frame(0, Some(90_000), None, vec![0; 20_000]))
        .unwrap();
    assert_eq!(
        m.write_packet(&frame(0, Some(93_600), None, vec![0; 2_000])),
        Err(MuxError::RateTooLow)
    );
}

#[test]
fn codecs_have_stream_types() {
    assert_eq!(stream_type_for_codec("h264"), Some((0x1B, 0xE0, true)));
    assert_eq!(stream_type_for_codec("ac3"), Some((0x81, 0xBD, false)));
    assert_eq!(stream_type_for_codec("H264"), None);
}

#[test]
fn frames_become_pes_packets() {
    let one = build_pes(0xE0, &frame(0, Some(-1), Some(-1), vec![1, 2])).unwrap();
    assert_eq!(one.len(), 1);
    let p = PesPacket::parse(&one[0]).unwrap();
    assert_eq!(p.pts_90k, Some(0x1_FFFF_FFFF));
    assert_eq!(p.dts_90k, None);
    assert_eq!(p.payload, vec![1, 2]);
    let many = build_pes(0xBD, &frame(0, Some(5), None, vec![7; 65_528])).unwrap();
    assert_eq!(many.len(), 2);
    assert_eq!(PesPacket::parse(&many[0]).unwrap().payload.len(), 65_527);
    let rest = PesPacket::parse(&many[1]).unwrap();
    assert_eq!(rest.payload.len(), 1);
    assert_eq!(rest.pts_90k, None);
}

#[test]
fn any_stream_id_has_its_pes_packets() {
    let long = frame(0, None, None, vec![7; 70_000]);
    // A second video stream has the unbounded form.
    let video = build_pes(0xE1, &long).unwrap();
    assert_eq!(video.len(), 1);
    assert_eq!(video[0][..9], [0, 0, 1, 0xE1, 0, 0, 0x80, 0, 0]);
    // Audio goes on in a second packet, padding has no header to carry.
    let audio = build_pes(0xC0, &long).unwrap();
    assert_eq!(audio.len(), 2);
    assert_eq!(audio[0][3..6], [0xC0, 0xFF, 0xFF]);
    let bare = build_pes(0xBE, &long).unwrap();
    assert_eq!(bare.len(), 2);
    assert_eq!(bare[0][..7], [0, 0, 1, 0xBE, 0xFF, 0xFC, 7]);
    assert_eq!(
        build_pes(0xBE, &frame(0, Some(1), None, vec![7])),
        Err(TsError::InvalidField {
            what: "optional PES fields on a header-less stream_id"
        })
    );
}

#[test]
fn packets_are_counted_for_any_capacity() {
    assert_eq!(packets_needed(10, 10, 0), 1);
    assert_eq!(packets_needed(11, 0, 1_000), 2);
    assert_eq!(packets_needed(1_001, 1, 250), 5);
    assert_eq!(packets_needed(1_002, 1, 250), 6);
}

#[test]
fn output_is_whole_packets_at_every_moment() {
    let mut m = MpegTsMuxer::new(&[stream(0, "h264"), stream(1, "ac3")]).unwrap();
    m.write_header();
    let mut all = m.take_output();
    assert_eq!(all.len(), 2 * TS_PACKET_LEN);
    for k in 0..20i64 {
        m.write_packet(&frame(0, Some(9_000 * k), None, vec![3; 17 * k as usize]))
            .unwrap();
        m.write_packet(&frame(1, Some(9_000 * k), None, vec![4; 230]))
            .unwrap();
        let part = m.take_output();
        assert_eq!(part.len() % TS_PACKET_LEN, 0);
        all.extend(part);
    }
    m.write_trailer().unwrap();
    all.extend(m.take_output());
    assert!(m.take_output().is_empty());
    let mut it = iter_packets(&all);
    let mut n = 0;
    while let Some(p) = it.next() {
        p.unwrap();
        n += 1;
    }
    assert_eq!(n * TS_PACKET_LEN, all.len());
    assert!(validate_ts(&all).is_conformant());
}

/// A session on two programs with splices and a new time base, its output taken
/// out after every call if `taking`.
fn session(rate: Option<u64>, taking: bool) -> Vec<u8> {
    let streams = [
        stream(0, "h264"),
        stream(1, "ac3"),
        stream(2, "hevc"),
        stream(3, "dts"),
    ];
    let programs = vec![program(1, &[0, 1]), program(2, &[3, 2])];
    let mut m = MpegTsMuxer::with_config(&streams, &config(programs)).unwrap();
    m.set_mux_rate(rate);
    let mut all = Vec::new();
    m.write_header();
    for k in 0..40i64 {
        if taking {
            all.extend(m.take_output());
        }
        if k % 7 == 3 {
            let spec = SpliceSpec {
                seamless: Some(SeamlessSpliceSpec {
                    splice_type: if k % 2 == 0 { 3 } else { 0 },
                    dts_next_au: 90_000,
                }),
                post_splice_packets: 2,
            };
            m.signal_splice_after(0, spec).unwrap();
            if taking {
                all.extend(m.take_output());
            }
        }
        if k == 20 && rate.is_none() {
            m.signal_time_base_discontinuity(2).unwrap();
        }
        let back = if k >= 20 && rate.is_none() { 60_000 } else { 0 };
        for i in 0..4u32 {
            let t = 90_000 + 3_600 * k - if i > 1 { back } else { 0 };
            let mut f = frame(i, Some(t), None, vec![i as u8; 400 + 13 * k as usize]);
            f.keyframe = k % 5 == 0;
            m.write_packet(&f).unwrap();
            if taking {
                all.extend(m.take_output());
            }
        }
    }
    m.write_trailer().unwrap();
    all.extend(m.take_output());
    all
}

#[test]
fn taking_the_output_out_changes_nothing() {
    for rate in [None, Some(3_000_000u64)] {
        let whole = session(rate, false);
        assert_eq!(session(rate, true), whole);
        assert!(validate_ts(&whole).is_conformant());
    }
}

#[test]
fn a_program_is_announced_as_long_as_its_map_fits_a_section() {
    for (n, fits) in [(72u32, true), (73, false)] {
        let streams: Vec<MuxStream> = (0..n)
            .map(|i| {
                let mut s = stream(i, "ac3");
                s.language = Some("eng".to_string());
                s
            })
            .collect();
        let mut m = MpegTsMuxer::new(&streams).unwrap();
        m.write_header();
        for i in 0..n {
            m.write_packet(&frame(i, Some(90_000), None, vec![1; 300])).unwrap();
        }
        let r = validate_ts(&m.take_output());
        assert_eq!(r.is_conformant(), fits);
        assert_eq!(r.violations.bad_psi_sections == 0, fits);
    }
}

#[test]
fn splices_and_breaks_leave_the_frames_alone() {
    for rate in [None, Some(3_000_000u64)] {
        let all = session(rate, true);
        for (k, i) in [0u8, 1, 3, 2].into_iter().enumerate() {
            let frames: Vec<Vec<u8>> = (0..40).map(|n| vec![i; 400 + 13 * n]).collect();
            assert_eq!(read_stream(&all, FIRST_ES_PID + k as u16), frames);
        }
    }
}

#[test]
fn a_frame_of_one_packet_cannot_count_down_again() {
    let mut m = MpegTsMuxer::new(&[stream(0, "h264")]).unwrap();
    m.write_header();
    for k in 0..3i64 {
        m.signal_splice_after(0, SpliceSpec::default()).unwrap();
        m.write_packet(&frame(0, Some(3_600 * k), None, vec![1; 20])).unwrap();
    }
    let r = validate_ts(&m.take_output());
    assert_eq!(r.violations.splice_countdown_inconsistent, 2);
    assert_eq!(r.violations.seamless_splice_run_broken, 0);
    assert_eq!(r.violations.pcr_interval_exceeded, 0);
    // Frames of more packets count down as often as one likes.
    let mut n = MpegTsMuxer::new(&[stream(0, "h264")]).unwrap();
    n.write_header();
    for k in 0..3i64 {
        n.signal_splice_after(0, SpliceSpec::default()).unwrap();
        n.write_packet(&frame(0, Some(3_600 * k), None, vec![1; 200])).unwrap();
    }
    assert!(validate_ts(&n.take_output()).is_conformant());
}

#[test]
fn a_clock_that_goes_back_is_late_unless_signalled() {
    for signalled in [false, true] {
        let mut m = MpegTsMuxer::new(&[stream(0, "h264")]).unwrap();
        m.write_header();
        m.write_packet(&frame(0, Some(90_000), None, vec![1; 20])).unwrap();
        if signalled {
            m.signal_time_base_discontinuity(1).unwrap();
        }
        m.write_packet(&frame(0, Some(45_000), None, vec![1; 20])).unwrap();
        let r = validate_ts(&m.take_output());
        assert_eq!(
            r.violations.pcr_interval_exceeded,
            if signalled { 0 } else { 1 }
        );
        assert_eq!(r.is_conformant(), signalled);
    }
}

#[test]
fn frames_are_read_back_with_their_marks() {
    let mut m = MpegTsMuxer::new(&[stream(0, "h264")]).unwrap();
    m.write_header();
    let mut key = frame(0, Some(90_000), Some(86_400), vec![0xAB; 1_000]);
    key.keyframe = true;
    m.write_packet(&key).unwrap();
    m.write_packet(&frame(0, Some(93_600), None, vec![0xCD; 10]))
        .unwrap();
    let out = m.take_output();
    let mut joiner = PesReassembler::new();
    let mut units = Vec::new();
    let mut counter = None;
    for chunk in out.chunks(TS_PACKET_LEN) {
        let p = TsPacket::parse(chunk).unwrap();
        if p.pid != FIRST_ES_PID {
            continue;
        }
        if !p.payload.is_empty() {
            if let Some(c) = counter {
                assert_eq!(p.continuity_counter, (c + 1) % 16);
            }
            counter = Some(p.continuity_counter);
        }
        units.extend(joiner.feed(&p).unwrap());
    }
    units.extend(joiner.flush().unwrap());
    assert_eq!(units.len(), 2);
    assert_eq!(units[0].payload, vec![0xAB; 1_000]);
    assert_eq!(units[0].pts_90k, Some(90_000));
    assert_eq!(units[0].dts_90k, Some(86_400));
    assert!(units[0].random_access);
    assert_eq!(units[1].payload, vec![0xCD; 10]);
    assert_eq!(units[1].dts_90k, None);
    assert!(!units[1].random_access);
}

#[test]
fn gaps_between_clock_references_are_filled() {
    let mut m = MpegTsMuxer::new(&[stream(0, "h264")]).unwrap();
    m.set_psi_repetition_interval(None);
    m.write_header();
    m.take_output();
    m.write_packet(&frame(0, Some(900), None, vec![1])).unwrap();
    m.write_packet(&frame(0, Some(10_900), None, vec![2])).unwrap();
    let out = m.take_output();
    let bases: Vec<u64> = out
        .chunks(TS_PACKET_LEN)
        .filter_map(|c| {
            TsPacket::parse(c)
                .unwrap()
                .adaptation_field
                .and_then(|af| af.pcr_base)
        })
        .collect();
    assert_eq!(bases, vec![0, 2_700, 5_400, 8_100, 10_000]);
}

#[test]
fn constant_rate_keeps_the_clock_with_the_bytes() {
    let mut m = MpegTsMuxer::new(&[stream(0, "h264")]).unwrap();
    m.set_mux_rate(Some(1_504_000));
    m.write_header();
    for k in 0..10i64 {
        m.write_packet(&frame(0, Some(90_000 + 3_600 * k), None, vec![5; 500]))
            .unwrap();
    }
    m.write_trailer().unwrap();
    let out = m.take_output();
    let samples = pcr_samples(&out, TsPacketLayout::STANDARD, FIRST_ES_PID);
    assert!(samples.len() > 5);
    for w in samples.windows(2) {
        // A packet takes 1504 bits, a thousandth of a second: 27 000 ticks.
        assert_eq!(
            w[1].pcr - w[0].pcr,
            (w[1].pos - w[0].pos) / 188 * 27_000
        );
        assert!(w[1].pcr - w[0].pcr <= 2_700_000);
    }
}

#[test]
fn a_paced_clock_is_late_only_after_a_long_frame() {
    // A packet takes a thousandth of a second.
    for (len, late) in [(5_000usize, 0), (36_000, 1)] {
        let mut m = MpegTsMuxer::new(&[stream(0, "h264")]).unwrap();
        m.set_mux_rate(Some(1_504_000));
        m.write_header();
        for k in 0..4i64 {
            let n = if k == 1 { len } else { 500 };
            m.write_packet(&frame(0, Some(90_000 + 45_000 * k), None, vec![5; n]))
                .unwrap();
        }
        m.write_trailer().unwrap();
        let r = validate_ts(&m.take_output());
        assert_eq!(r.violations.pcr_interval_exceeded, late);
        assert_eq!(r.is_conformant(), late == 0);
    }
}

#[test]
fn null_packets_leave_no_gap_between_clock_references() {
    for rate in [200_000u64, 3_000_000] {
        let mut m = MpegTsMuxer::new(&[stream(0, "h264"), stream(1, "ac3")]).unwrap();
        m.set_mux_rate(Some(rate));
        m.write_header();
        for k in 0..3i64 {
            for i in [0, 1] {
                m.write_packet(&frame(i, Some(90_000 + 270_000 * k), None, vec![5; 300]))
                    .unwrap();
            }
        }
        m.write_trailer().unwrap();
        let out = m.take_output();
        assert!(validate_ts(&out).is_conformant());
        let mut places = Vec::new();
        for (k, chunk) in out.chunks(TS_PACKET_LEN).enumerate() {
            let p = TsPacket::parse(chunk).unwrap();
            if p.adaptation_field.map_or(false, |af| af.pcr_base.is_some()) {
                places.push((k * TS_PACKET_LEN) as u64);
            }
        }
        // Six seconds, and no two more than 0,1 s apart.
        assert!(places.len() > 100);
        for w in places.windows(2) {
            assert!((w[1] - w[0]) * 8 * 10 <= rate);
        }
    }
}

/// Everything that is read on `pid`.
fn read_stream(out: &[u8], pid: u16) -> Vec<Vec<u8>> {
    let mut joiner = PesReassembler::new();
    let mut data = Vec::new();
    for chunk in out.chunks(TS_PACKET_LEN) {
        let p = TsPacket::parse(chunk).unwrap();
        if p.pid == pid {
            data.extend(joiner.feed(&p).unwrap().map(|u| u.payload));
        }
    }
    data.extend(joiner.flush().unwrap().map(|u| u.payload));
    data
}

#[test]
fn paced_frames_come_back_in_order() {
    let mut m = MpegTsMuxer::new(&[stream(0, "h264"), stream(1, "ac3")]).unwrap();
    m.set_mux_rate(Some(2_000_000));
    m.write_header();
    let mut video = Vec::new();
    let mut audio = Vec::new();
    for k in 0..25i64 {
        let v = vec![k as u8; 700 + 13 * k as usize];
        let a = vec![0x80 | k as u8; 400];
        m.write_packet(&frame(0, Some(90_000 + 3_600 * k), None, v.clone()))
            .unwrap();
        m.write_packet(&frame(1, Some(90_000 + 2_880 * k), None, a.clone()))
            .unwrap();
        video.push(v);
        audio.push(a);
    }
    m.write_trailer().unwrap();
    let out = m.take_output();
    assert_eq!(read_stream(&out, FIRST_ES_PID), video);
    assert_eq!(read_stream(&out, FIRST_ES_PID + 1), audio);
    let report = validate_ts(&out);
    assert!(report.is_conformant());
    assert!(report.null_packets > 0);
    assert_eq!(report.violations.continuity_errors, 0);
}

#[test]
fn held_frames_wait_for_their_time() {
    let mut m = MpegTsMuxer::new(&[stream(0, "h264"), stream(1, "ac3")]).unwrap();
    m.set_mux_rate(Some(2_000_000));
    m.write_header();
    m.write_packet(&frame(0, Some(90_000), None, vec![1; 100]))
        .unwrap();
    m.take_output();
    m.write_packet(&frame(1, Some(99_000), None, vec![2; 100]))
        .unwrap();
    assert!(m.take_output().is_empty());
    m.write_trailer().unwrap();
    assert_eq!(
        read_stream(&m.take_output(), FIRST_ES_PID + 1),
        vec![vec![2u8; 100]]
    );
}

#[test]
fn a_new_time_base_lets_held_frames_go() {
    let mut m = MpegTsMuxer::new(&[stream(0, "h264"), stream(1, "ac3")]).unwrap();
    m.set_mux_rate(Some(2_000_000));
    m.write_header();
    m.write_packet(&frame(0, Some(90_000), None, vec![1; 100]))
        .unwrap();
    m.write_packet(&frame(1, Some(99_000), None, vec![2; 100]))
        .unwrap();
    m.take_output();
    m.signal_time_base_discontinuity(1).unwrap();
    assert_eq!(
        read_stream(&m.take_output(), FIRST_ES_PID + 1),
        vec![vec![2u8; 100]]
    );
}

#[test]
fn held_frames_go_out_in_the_order_in_which_they_were_written() {
    // 1256 bytes take 33,5 ms at this rate; the frames are 32 ms apart, or share
    // their time.
    for step in [2_880i64, 0] {
        for breaks in [false, true] {
            let mut m = MpegTsMuxer::new(&[stream(0, "h264"), stream(1, "ac3")]).unwrap();
            m.set_mux_rate(Some(300_000));
            m.write_header();
            m.write_packet(&frame(0, Some(90_000), None, vec![1; 100]))
                .unwrap();
            m.write_packet(&frame(1, Some(99_000), None, vec![2; 1_000]))
                .unwrap();
            m.write_packet(&frame(1, Some(99_000 + step), None, vec![3; 1_000]))
                .unwrap();
            if breaks {
                m.signal_time_base_discontinuity(1).unwrap();
            } else {
                m.write_trailer().unwrap();
            }
            assert_eq!(
                read_stream(&m.take_output(), FIRST_ES_PID + 1),
                vec![vec![2u8; 1_000], vec![3u8; 1_000]]
            );
        }
    }
}

#[test]
fn a_frame_that_a_held_one_makes_late_is_refused() {
    // The held frame is due 50 ms after the decode time of the video frame, which
    // takes 327 ms: waiting for it takes the clock past that time.
    for (pts, r) in [(143_100i64, Err(MuxError::RateTooLow)), (135_000, Ok(()))] {
        let mut m = MpegTsMuxer::new(&[stream(0, "h264"), stream(1, "ac3")]).unwrap();
        m.set_mux_rate(Some(300_000));
        m.write_header();
        m.write_packet(&frame(0, Some(90_000), None, vec![1; 100]))
            .unwrap();
        m.write_packet(&frame(1, Some(pts), None, vec![2; 100]))
            .unwrap();
        assert_eq!(
            m.write_packet(&frame(0, Some(135_000), None, vec![3; 12_000])),
            r
        );
        let video = read_stream(&m.take_output(), FIRST_ES_PID);
        assert_eq!(video.len(), if r.is_ok() { 2 } else { 1 });
    }
}
