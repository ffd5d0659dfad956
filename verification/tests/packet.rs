use oxideav_mpegts::packet::{
    encode_clock_reference as public_encode_clock_reference, iter_packets,
    AdaptationFieldExtensionSpec, AdaptationFieldSpec, TsPacket, MAX_ADAPTATION_FIELD_LEN,
    TS_PACKET_LEN,
};
use oxideav_mpegts::TsError;

/// Build a 188-byte packet from a 4-byte header and a tail. The
/// tail is padded with `0xFF` up to 184 bytes.
fn make_packet(header: [u8; 4], tail: &[u8]) -> Vec<u8> {
    assert!(tail.len() <= 184);
    let mut v = Vec::with_capacity(TS_PACKET_LEN);
    v.extend_from_slice(&header);
    v.extend_from_slice(tail);
    v.resize(TS_PACKET_LEN, 0xFF);
    v
}

#[test]
fn bare_audio_packet_payload_only() {
    // PID = 0x1100, PUSI = 1, AF control = 0b01 (payload only),
    // CC = 5.
    let header = [
        0x47,
        0b0100_0001, // PUSI=1, PID hi = 0x01
        0x00,        // PID lo = 0x00 → PID = 0x100
        0b0001_0101, // scrambling=0, AF=0b01, CC=5
    ];
    let payload = [0xAA, 0xBB, 0xCC, 0xDD];
    let bytes = make_packet(header, &payload);
    let pkt = TsPacket::parse(&bytes).unwrap();
    assert_eq!(pkt.pid, 0x0100);
    assert!(pkt.payload_unit_start);
    assert!(!pkt.transport_error);
    assert_eq!(pkt.continuity_counter, 5);
    assert!(pkt.adaptation_field.is_none());
    // Payload covers bytes 4..188.
    assert_eq!(pkt.payload.len(), 184);
    assert_eq!(&pkt.payload[..4], &payload);
}

#[test]
fn packet_with_adaptation_field_and_pcr() {
    // AF carries a PCR. We choose:
    //   PCR base = 0x1_2345_6789  (33 bits, fits in u64)
    //   PCR ext  = 0x0AB           (9 bits, fits in u16)
    let base: u64 = 0x1_2345_6789;
    let ext: u16 = 0x0AB;
    // 6 PCR bytes: base[32..25] base[24..17] base[16..9] base[8..1]
    // [base0 (1)|reserved 0b111111|ext_hi (1)]  [ext_lo (8)]
    let p0 = ((base >> 25) & 0xFF) as u8;
    let p1 = ((base >> 17) & 0xFF) as u8;
    let p2 = ((base >> 9) & 0xFF) as u8;
    let p3 = ((base >> 1) & 0xFF) as u8;
    let p4 = (((base & 0b1) as u8) << 7) | 0b0111_1110 | (((ext >> 8) & 0b1) as u8);
    let p5 = (ext & 0xFF) as u8;

    // AF: length=7 (1 flags byte + 6 PCR bytes), flags=0x50 (RAI=1,
    // PCR=1), then 6 PCR bytes.
    let af_len: u8 = 1 + 6;
    let af = [af_len, 0b0101_0000, p0, p1, p2, p3, p4, p5];

    // Header: PID = 0x100, PUSI=0, AF control = 0b11 (AF + payload),
    // CC = 0xA.
    let header = [0x47, 0x01, 0x00, 0b0011_1010];

    // Payload tail: a few "PES start" bytes for flavour.
    let mut tail = Vec::new();
    tail.extend_from_slice(&af);
    tail.extend_from_slice(&[0x00, 0x00, 0x01, 0xE0]);

    let bytes = make_packet(header, &tail);
    let pkt = TsPacket::parse(&bytes).unwrap();
    assert_eq!(pkt.pid, 0x0100);
    assert!(!pkt.payload_unit_start);
    assert_eq!(pkt.continuity_counter, 0xA);
    let af = pkt.adaptation_field.expect("af present");
    assert_eq!(af.length, 7);
    assert!(af.random_access_indicator);
    assert!(af.pcr_flag);
    assert_eq!(af.pcr_base, Some(base));
    assert_eq!(af.pcr_extension, Some(ext));
    // Payload starts after header (4 bytes) + AF (8 bytes).
    assert_eq!(pkt.payload.len(), TS_PACKET_LEN - 4 - 8);
    assert_eq!(&pkt.payload[..4], &[0x00, 0x00, 0x01, 0xE0]);
}

#[test]
fn af_only_packet_has_empty_payload() {
    // AF control = 0b10 (AF only, no payload). AF length 183 ⇒ AF
    // occupies all of bytes 4..188 (length byte + 183 stuffing).
    let header = [0x47, 0x01, 0x00, 0b0010_0000];
    // AF: length=183, flags=0, then 182 stuffing bytes 0xFF.
    let mut tail = Vec::new();
    tail.push(183);
    tail.push(0);
    tail.extend(std::iter::repeat(0xFF).take(182));
    let bytes = make_packet(header, &tail);
    let pkt = TsPacket::parse(&bytes).unwrap();
    assert!(pkt.adaptation_field.is_some());
    assert_eq!(pkt.adaptation_field.unwrap().length, 183);
    assert!(pkt.payload.is_empty());
}

#[test]
fn wrong_sync_byte_iterator_halts() {
    let good_header = [0x47, 0x01, 0x00, 0b0001_0000];
    let good = make_packet(good_header, &[]);
    let mut bad = good.clone();
    bad[0] = 0x48; // wrong sync
    let mut buf = Vec::new();
    buf.extend_from_slice(&good);
    buf.extend_from_slice(&bad);
    buf.extend_from_slice(&good);

    let mut it = iter_packets(&buf);
    let first = it.next().unwrap().unwrap();
    assert_eq!(first.pid, 0x0100);
    let second = it.next().unwrap();
    match second {
        Err(TsError::BadSyncByte(0x48)) => {}
        other => panic!("expected BadSyncByte(0x48), got {other:?}"),
    }
    // After a sync break the iterator yields no more items.
    assert!(it.next().is_none());
}

#[test]
fn truncated_tail_yields_nothing_extra() {
    let good_header = [0x47, 0x00, 0x00, 0b0001_0000];
    let good = make_packet(good_header, &[]);
    let mut buf = Vec::new();
    buf.extend_from_slice(&good);
    buf.extend_from_slice(&[0x47, 0x00]); // 2 stray bytes
    let mut it = iter_packets(&buf);
    assert!(it.next().unwrap().is_ok());
    assert!(it.next().is_none());
}

/// Encode a 6-byte program_clock_reference (33-bit base + 6 reserved
/// ones + 9-bit extension).
fn encode_clock_reference(base: u64, ext: u16) -> [u8; 6] {
    let b0 = ((base >> 25) & 0xFF) as u8;
    let b1 = ((base >> 17) & 0xFF) as u8;
    let b2 = ((base >> 9) & 0xFF) as u8;
    let b3 = ((base >> 1) & 0xFF) as u8;
    let b4 = (((base & 0b1) as u8) << 7) | 0b0111_1110 | (((ext >> 8) & 0b1) as u8);
    let b5 = (ext & 0xFF) as u8;
    [b0, b1, b2, b3, b4, b5]
}

/// Wrap a custom adaptation-field payload (everything after the
/// flags byte) into a 188-byte TS packet whose AF_control = 0b11.
fn ts_packet_with_af(af_flags: u8, af_tail: &[u8]) -> Vec<u8> {
    // af_len counts the flags byte + tail.
    let af_len = (1 + af_tail.len()) as u8;
    let header = [0x47, 0x01, 0x00, 0b0011_0000];
    let mut tail = Vec::new();
    tail.push(af_len);
    tail.push(af_flags);
    tail.extend_from_slice(af_tail);
    make_packet(header, &tail)
}

#[test]
fn af_opcr_unpacked() {
    // PCR + OPCR — same wire shape, different base/ext values.
    let pcr_base: u64 = 0x0_0000_0001;
    let pcr_ext: u16 = 0x000;
    let opcr_base: u64 = 0x1_FEDC_BA98;
    let opcr_ext: u16 = 0x1FE;
    let mut tail = Vec::new();
    tail.extend_from_slice(&encode_clock_reference(pcr_base, pcr_ext));
    tail.extend_from_slice(&encode_clock_reference(opcr_base, opcr_ext));
    // flags: PCR + OPCR.
    let bytes = ts_packet_with_af(0b0001_1000, &tail);
    let pkt = TsPacket::parse(&bytes).unwrap();
    let af = pkt.adaptation_field.expect("af");
    assert_eq!(af.pcr_base, Some(pcr_base));
    assert_eq!(af.pcr_extension, Some(pcr_ext));
    assert_eq!(af.opcr_base, Some(opcr_base));
    assert_eq!(af.opcr_extension, Some(opcr_ext));
}

#[test]
fn af_splice_countdown_signed() {
    // splicing_point_flag only — single signed byte.
    let bytes = ts_packet_with_af(0b0000_0100, &[(-3i8) as u8]);
    let pkt = TsPacket::parse(&bytes).unwrap();
    let af = pkt.adaptation_field.expect("af");
    assert!(af.splicing_point_flag);
    assert_eq!(af.splice_countdown, Some(-3));
}

#[test]
fn af_transport_private_data() {
    // transport_private_data_flag — 1-byte length + payload.
    let payload: &[u8] = &[0xDE, 0xAD, 0xBE, 0xEF];
    let mut tail = Vec::new();
    tail.push(payload.len() as u8);
    tail.extend_from_slice(payload);
    let bytes = ts_packet_with_af(0b0000_0010, &tail);
    let pkt = TsPacket::parse(&bytes).unwrap();
    let af = pkt.adaptation_field.expect("af");
    assert!(af.transport_private_data_flag);
    assert_eq!(af.transport_private_data, Some(payload));
}

#[test]
fn af_extension_with_ltw_and_piecewise_rate() {
    // Extension: ltw_flag + piecewise_rate_flag, no seamless_splice.
    // ltw_valid_flag=1, ltw_offset=0x1234. piecewise_rate=0x2A_3B4C.
    // ext_len = flags(1) + ltw(2) + piecewise(3) = 6.
    let ltw_offset: u16 = 0x1234;
    let b0 = 0b1000_0000 | ((ltw_offset >> 8) & 0x7F) as u8;
    let b1 = (ltw_offset & 0xFF) as u8;
    let pwr: u32 = 0x2A_3B4C;
    let p0 = ((pwr >> 16) & 0x3F) as u8 | 0b1100_0000; // reserved=11
    let p1 = ((pwr >> 8) & 0xFF) as u8;
    let p2 = (pwr & 0xFF) as u8;
    let tail = vec![
        6,           // adaptation_field_extension_length
        0b1100_0000, // ltw + piecewise, no seamless
        b0,
        b1,
        p0,
        p1,
        p2,
    ];
    // flag = adaptation_field_extension_flag only.
    let bytes = ts_packet_with_af(0b0000_0001, &tail);
    let pkt = TsPacket::parse(&bytes).unwrap();
    let af = pkt.adaptation_field.expect("af");
    let ext = af.adaptation_field_extension.expect("ext");
    assert_eq!(ext.length, 6);
    assert!(ext.ltw_flag);
    assert!(ext.piecewise_rate_flag);
    assert!(!ext.seamless_splice_flag);
    assert_eq!(ext.ltw_valid_flag, Some(true));
    assert_eq!(ext.ltw_offset, Some(0x1234));
    assert_eq!(ext.piecewise_rate, Some(0x2A_3B4C));
    assert_eq!(ext.splice_type, None);
    assert_eq!(ext.dts_next_au, None);
}

#[test]
fn af_extension_seamless_splice_dts() {
    // seamless_splice only. splice_type = 5, DTS_next_AU = some
    // 33-bit value. ext_len = flags(1) + seamless(5) = 6.
    let dts: u64 = 0x1_2345_6789;
    let splice_type: u8 = 5;
    let b0 = (splice_type << 4) | (((dts >> 30) & 0b0111) as u8) << 1 | 0b1;
    let b1 = ((dts >> 22) & 0xFF) as u8;
    let b2 = (((dts >> 15) & 0b0111_1111) as u8) << 1 | 0b1;
    let b3 = ((dts >> 7) & 0xFF) as u8;
    let b4 = (((dts & 0b0111_1111) as u8) << 1) | 0b1;
    let mut tail = Vec::new();
    tail.push(6); // ext_len
    tail.push(0b0010_0000); // seamless_splice only
    tail.extend_from_slice(&[b0, b1, b2, b3, b4]);
    let bytes = ts_packet_with_af(0b0000_0001, &tail);
    let pkt = TsPacket::parse(&bytes).unwrap();
    let ext = pkt
        .adaptation_field
        .unwrap()
        .adaptation_field_extension
        .expect("ext");
    assert!(ext.seamless_splice_flag);
    assert_eq!(ext.splice_type, Some(splice_type));
    assert_eq!(ext.dts_next_au, Some(dts));
}

#[test]
fn af_extension_with_reserved_padding_is_accepted() {
    // ext_len = 4: flags(1) + ltw(2) + 1 byte of reserved padding.
    // Parser must not error and must skip the padding.
    let ltw_offset: u16 = 0x0ABC;
    let b0 = ((ltw_offset >> 8) & 0x7F) as u8; // ltw_valid=0
    let b1 = (ltw_offset & 0xFF) as u8;
    let tail = vec![
        4,           // ext_len includes flags + ltw + padding
        0b1000_0000, // ltw only
        b0,
        b1,
        0xFF, // reserved padding
    ];
    let bytes = ts_packet_with_af(0b0000_0001, &tail);
    let pkt = TsPacket::parse(&bytes).unwrap();
    let ext = pkt
        .adaptation_field
        .unwrap()
        .adaptation_field_extension
        .expect("ext");
    assert_eq!(ext.length, 4);
    assert!(ext.ltw_flag);
    assert_eq!(ext.ltw_valid_flag, Some(false));
    assert_eq!(ext.ltw_offset, Some(0x0ABC));
}

#[test]
fn af_all_optional_subfields_together() {
    // Every flag set; the AF carries PCR + OPCR + splice_countdown +
    // 2-byte transport_private_data + a minimal extension with
    // ltw_flag only. Verifies cursor ordering through the
    // whole field.
    let pcr_base: u64 = 100;
    let pcr_ext: u16 = 50;
    let opcr_base: u64 = 200;
    let opcr_ext: u16 = 60;
    let priv_data: &[u8] = &[0xAB, 0xCD];
    let mut tail = Vec::new();
    tail.extend_from_slice(&encode_clock_reference(pcr_base, pcr_ext));
    tail.extend_from_slice(&encode_clock_reference(opcr_base, opcr_ext));
    tail.push(7i8 as u8); // splice_countdown
    tail.push(priv_data.len() as u8); // transport_private_data_length
    tail.extend_from_slice(priv_data);
    // Extension: ext_len = flags(1) + ltw(2) = 3, ltw_valid=0,
    // ltw_offset = 0.
    tail.push(3);
    tail.push(0b1000_0000);
    tail.push(0x00);
    tail.push(0x00);
    let bytes = ts_packet_with_af(0b0001_1111, &tail);
    let pkt = TsPacket::parse(&bytes).unwrap();
    let af = pkt.adaptation_field.expect("af");
    assert_eq!(af.pcr_base, Some(pcr_base));
    assert_eq!(af.opcr_base, Some(opcr_base));
    assert_eq!(af.opcr_extension, Some(opcr_ext));
    assert_eq!(af.splice_countdown, Some(7));
    assert_eq!(af.transport_private_data, Some(priv_data));
    let ext = af.adaptation_field_extension.expect("ext");
    assert_eq!(ext.length, 3);
    assert_eq!(ext.ltw_valid_flag, Some(false));
    assert_eq!(ext.ltw_offset, Some(0));
}

/// Wrap encoded AF bytes into a full TS packet (AF + payload) and
/// parse it back.
fn parse_encoded_af(af_bytes: &[u8]) -> Vec<u8> {
    let header = [0x47, 0x01, 0x00, 0b0011_0000];
    let mut tail = Vec::new();
    tail.extend_from_slice(af_bytes);
    make_packet(header, &tail)
}

#[test]
fn af_spec_empty_encodes_single_stuffing_byte() {
    let spec = AdaptationFieldSpec::default();
    let bytes = spec.encode(None).unwrap();
    assert_eq!(bytes, vec![0]);
    let pkt_bytes = parse_encoded_af(&bytes);
    let pkt = TsPacket::parse(&pkt_bytes).unwrap();
    let af = pkt.adaptation_field.expect("af");
    assert_eq!(af.length, 0);
    assert!(!af.pcr_flag);
}

#[test]
fn af_spec_empty_with_padding_round_trips() {
    let spec = AdaptationFieldSpec::default();
    let bytes = spec.encode(Some(10)).unwrap();
    assert_eq!(bytes.len(), 10);
    assert_eq!(bytes[0], 9); // adaptation_field_length
    assert_eq!(bytes[1], 0); // no flags
    assert!(bytes[2..].iter().all(|&b| b == 0xFF));
    let pkt = parse_encoded_af(&bytes);
    let pkt = TsPacket::parse(&pkt).unwrap();
    let af = pkt.adaptation_field.expect("af");
    assert_eq!(af.length, 9);
    assert!(!af.random_access_indicator);
}

#[test]
fn af_spec_full_house_round_trips() {
    let spec = AdaptationFieldSpec {
        discontinuity_indicator: true,
        random_access_indicator: true,
        elementary_stream_priority_indicator: true,
        pcr: Some((0x1_2345_6789, 0x0AB)),
        opcr: Some((0x0_00AB_CDEF, 0x1FF)),
        splice_countdown: Some(-7),
        transport_private_data: Some(vec![0xDE, 0xAD, 0xBE, 0xEF]),
        extension: Some(AdaptationFieldExtensionSpec {
            ltw: Some((true, 0x1234)),
            piecewise_rate: Some(0x2A_3B4C),
            seamless_splice: Some((5, 0x1_2345_6789)),
        }),
    };
    let bytes = spec.encode(None).unwrap();
    let pkt = parse_encoded_af(&bytes);
    let pkt = TsPacket::parse(&pkt).unwrap();
    let af = pkt.adaptation_field.expect("af");
    assert!(af.discontinuity_indicator);
    assert!(af.random_access_indicator);
    assert!(af.elementary_stream_priority_indicator);
    assert_eq!(af.pcr_base, Some(0x1_2345_6789));
    assert_eq!(af.pcr_extension, Some(0x0AB));
    assert_eq!(af.opcr_base, Some(0x0_00AB_CDEF));
    assert_eq!(af.opcr_extension, Some(0x1FF));
    assert_eq!(af.splice_countdown, Some(-7));
    assert_eq!(
        af.transport_private_data,
        Some(&[0xDE, 0xAD, 0xBE, 0xEF][..])
    );
    let ext = af.adaptation_field_extension.expect("ext");
    assert_eq!(ext.ltw_valid_flag, Some(true));
    assert_eq!(ext.ltw_offset, Some(0x1234));
    assert_eq!(ext.piecewise_rate, Some(0x2A_3B4C));
    assert_eq!(ext.splice_type, Some(5));
    assert_eq!(ext.dts_next_au, Some(0x1_2345_6789));
}

#[test]
fn af_spec_padding_lands_after_fields() {
    let spec = AdaptationFieldSpec::with_pcr(1234, 0);
    // Content is 8 bytes (len + flags + 6 PCR); pad to 20.
    let bytes = spec.encode(Some(20)).unwrap();
    assert_eq!(bytes.len(), 20);
    assert_eq!(bytes[0], 19);
    assert!(bytes[8..].iter().all(|&b| b == 0xFF));
    let pkt = parse_encoded_af(&bytes);
    let pkt = TsPacket::parse(&pkt).unwrap();
    let af = pkt.adaptation_field.expect("af");
    assert_eq!(af.pcr_base, Some(1234));
    assert_eq!(af.pcr_extension, Some(0));
}

#[test]
fn af_spec_empty_extension_round_trips() {
    // A Some(extension) with no sub-fields is still emitted (and
    // legal): ext_len = 1 (just the flags byte).
    let spec = AdaptationFieldSpec {
        extension: Some(AdaptationFieldExtensionSpec::default()),
        ..Default::default()
    };
    let bytes = spec.encode(None).unwrap();
    let pkt = parse_encoded_af(&bytes);
    let pkt = TsPacket::parse(&pkt).unwrap();
    let ext = pkt
        .adaptation_field
        .unwrap()
        .adaptation_field_extension
        .expect("ext");
    assert!(!ext.ltw_flag);
    assert!(!ext.piecewise_rate_flag);
    assert!(!ext.seamless_splice_flag);
}

#[test]
fn af_spec_rejects_forbidden_combinations() {
    // OPCR without PCR.
    let spec = AdaptationFieldSpec {
        opcr: Some((1, 0)),
        ..Default::default()
    };
    assert!(matches!(
        spec.encode(None),
        Err(TsError::InvalidField { .. })
    ));

    // seamless_splice without splice_countdown (the
    // seamless_splice_flag requires splicing_point_flag).
    let spec = AdaptationFieldSpec {
        extension: Some(AdaptationFieldExtensionSpec {
            seamless_splice: Some((0, 42)),
            ..Default::default()
        }),
        ..Default::default()
    };
    assert!(matches!(
        spec.encode(None),
        Err(TsError::InvalidField { .. })
    ));
}

#[test]
fn af_spec_rejects_out_of_range_values() {
    for spec in [
        AdaptationFieldSpec::with_pcr(1 << 33, 0),
        AdaptationFieldSpec::with_pcr(0, 512),
        AdaptationFieldSpec {
            pcr: Some((0, 0)),
            opcr: Some((1 << 33, 0)),
            ..Default::default()
        },
        AdaptationFieldSpec {
            extension: Some(AdaptationFieldExtensionSpec {
                ltw: Some((true, 0x8000)),
                ..Default::default()
            }),
            ..Default::default()
        },
        AdaptationFieldSpec {
            extension: Some(AdaptationFieldExtensionSpec {
                piecewise_rate: Some(0x40_0000),
                ..Default::default()
            }),
            ..Default::default()
        },
        AdaptationFieldSpec {
            splice_countdown: Some(1),
            extension: Some(AdaptationFieldExtensionSpec {
                seamless_splice: Some((16, 0)),
                ..Default::default()
            }),
            ..Default::default()
        },
        AdaptationFieldSpec {
            splice_countdown: Some(1),
            extension: Some(AdaptationFieldExtensionSpec {
                seamless_splice: Some((0, 1 << 33)),
                ..Default::default()
            }),
            ..Default::default()
        },
    ] {
        assert!(
            matches!(spec.encode(None), Err(TsError::InvalidField { .. })),
            "spec should be rejected: {spec:?}"
        );
    }
}

#[test]
fn af_spec_rejects_oversize() {
    // 200 bytes of private data exceeds even the 255-byte length
    // prefix's reach inside a 184-byte AF.
    let spec = AdaptationFieldSpec {
        transport_private_data: Some(vec![0xAA; 200]),
        ..Default::default()
    };
    assert!(matches!(
        spec.encode(None),
        Err(TsError::InvalidField { .. })
    ));
    // Padding request beyond the AF ceiling.
    let spec = AdaptationFieldSpec::default();
    assert!(matches!(
        spec.encode(Some(185)),
        Err(TsError::InvalidField { .. })
    ));
    // 256-byte private data overflows the u8 length prefix.
    let spec = AdaptationFieldSpec {
        transport_private_data: Some(vec![0xAA; 256]),
        ..Default::default()
    };
    assert!(matches!(
        spec.encode(None),
        Err(TsError::InvalidField { .. })
    ));
}

#[test]
fn af_spec_max_size_content_accepted() {
    // Largest legal AF: flags + private data filling the rest.
    // len(1) + flags(1) + priv_len(1) + N = 184 → N = 181.
    let spec = AdaptationFieldSpec {
        transport_private_data: Some(vec![0x55; 181]),
        ..Default::default()
    };
    let bytes = spec.encode(None).unwrap();
    assert_eq!(bytes.len(), MAX_ADAPTATION_FIELD_LEN);
    assert_eq!(bytes[0], 183);
    let pkt = parse_encoded_af(&bytes);
    let pkt = TsPacket::parse(&pkt).unwrap();
    let af = pkt.adaptation_field.expect("af");
    assert_eq!(af.transport_private_data.map(|d| d.len()), Some(181));
    assert!(pkt.payload.is_empty() || pkt.payload.iter().all(|&b| b == 0xFF));
    // One more byte must be rejected.
    let spec = AdaptationFieldSpec {
        transport_private_data: Some(vec![0x55; 182]),
        ..Default::default()
    };
    assert!(matches!(
        spec.encode(None),
        Err(TsError::InvalidField { .. })
    ));
}

#[test]
fn public_clock_reference_encoder_matches_test_helper() {
    // The test module keeps its own independent derivation of
    // the bit layout (`encode_clock_reference` above, used by
    // the parser tests); cross-check the public helper against it.
    for (base, ext) in [
        (0u64, 0u16),
        (1, 511),
        (0x1_FFFF_FFFF, 0x1FF),
        (0x0_DEAD_BEEF, 0x123),
    ] {
        assert_eq!(
            public_encode_clock_reference(base, ext),
            encode_clock_reference(base, ext)
        );
    }
}

#[test]
fn af_extension_truncated_body_errors() {
    // ext_len claims 5 but only flags + 1 byte present in AF.
    let tail = vec![
        5,           // ext_len
        0b1000_0000, // ltw_flag set
        0x00,        // only one byte where ltw needs two
    ];
    let af_len = (1 + tail.len()) as u8;
    let header = [0x47, 0x01, 0x00, 0b0011_0000];
    let mut packet_tail = Vec::new();
    packet_tail.push(af_len);
    packet_tail.push(0b0000_0001);
    packet_tail.extend_from_slice(&tail);
    let bytes = make_packet(header, &packet_tail);
    let err = TsPacket::parse(&bytes).unwrap_err();
    match err {
        TsError::Truncated { .. } => {}
        other => panic!("expected Truncated, got {other:?}"),
    }
}
