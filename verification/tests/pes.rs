use oxideav_mpegts::packet::{iter_packets, TsPacket, TS_PACKET_LEN, TS_SYNC_BYTE};
use oxideav_mpegts::pes::{
    decode_escr, decode_timestamp, CoefficientSelection, DsmTrickMode, FieldId, PStdBuffer,
    PesExtension, PesHeaderSpec, PesPacket, PesReassembler, ProgramPacketSequenceCounter,
};
use oxideav_mpegts::TsError;

/// Encode a PTS/DTS into 5 bytes, with the given
/// 4-bit prefix nibble.
fn encode_timestamp(prefix: u8, ts: u64) -> [u8; 5] {
    // 33-bit timestamp.
    let t = ts & 0x1_FFFF_FFFF;
    let t32_30 = ((t >> 30) & 0b0111) as u8;
    let t29_15 = ((t >> 15) & 0x7FFF) as u16;
    let t14_0 = (t & 0x7FFF) as u16;
    [
        (prefix << 4) | (t32_30 << 1) | 0b1,
        ((t29_15 >> 7) & 0xFF) as u8,
        (((t29_15 & 0x7F) << 1) as u8) | 0b1,
        ((t14_0 >> 7) & 0xFF) as u8,
        (((t14_0 & 0x7F) << 1) as u8) | 0b1,
    ]
}

/// Build a video PES packet (stream_id 0xE0) with a PTS and the
/// given payload bytes.
fn build_pes(stream_id: u8, pts: u64, payload: &[u8]) -> Vec<u8> {
    let pts_bytes = encode_timestamp(0b0010, pts);
    let mut v = Vec::new();
    v.extend_from_slice(&[0x00, 0x00, 0x01, stream_id]);
    // PES_packet_length covers bytes from byte 6 onward.
    let pes_packet_length: u16 = (3 + 5 + payload.len()) as u16;
    v.extend_from_slice(&pes_packet_length.to_be_bytes());
    // byte 6: '10' marker | scrambling=0 | priority=0 | data_align=0 |
    //         copyright=0 | original_or_copy=0  ⇒ 0b1000_0000.
    v.push(0b1000_0000);
    // byte 7: PTS_DTS_flags=0b10 (PTS only), rest 0  ⇒ 0b1000_0000.
    v.push(0b1000_0000);
    // byte 8: PES_header_data_length = 5 (just PTS).
    v.push(5);
    v.extend_from_slice(&pts_bytes);
    v.extend_from_slice(payload);
    v
}

/// Wrap PES bytes into TS packets, splitting at `chunk_len` bytes
/// from the PES start, with the given PID. The first packet has
/// PUSI=1; the rest PUSI=0. Every packet is 188 bytes. When the
/// PES bytes don't fill a packet's payload area (the typical case
/// for the final packet of a PES packet on a real broadcast), an
/// adaptation field is inserted before the payload to absorb the
/// shortfall — matching the stuffing
/// behaviour.
fn pes_into_ts(pid: u16, pes: &[u8], chunk_len: usize) -> Vec<u8> {
    assert!(chunk_len > 0 && chunk_len <= 184);
    let mut out = Vec::new();
    let mut cursor = 0;
    let mut first = true;
    let mut cc: u8 = 0;
    while cursor < pes.len() {
        let pusi = if first { 0b0100_0000 } else { 0 };
        let pid_hi = ((pid >> 8) & 0x1F) as u8;
        let pid_lo = (pid & 0xFF) as u8;
        let remaining = pes.len() - cursor;
        let take = remaining.min(chunk_len).min(184);
        // If the PES bytes don't fill 184 bytes, insert an AF of
        // the required size before them. AF length byte counts
        // ONLY the bytes after it: so for a stuffing AF of N
        // total bytes, length byte = N-1, then N-1 0xFF stuffing
        // bytes.
        let af_total = 184 - take;
        let af_control: u8 = if af_total > 0 { 0b11 } else { 0b01 };
        let b3 = (af_control << 4) | (cc & 0x0F);
        let mut pkt = vec![TS_SYNC_BYTE, pusi | pid_hi, pid_lo, b3];
        if af_total > 0 {
            // length byte counts bytes after itself.
            pkt.push((af_total - 1) as u8);
            // Per spec, an AF with only stuffing has length>=1
            // (length byte + 0+ stuffing) when there is no flags
            // byte room; but the syntax requires a flags byte
            // when length>0. We allocate the flags byte and use
            // the rest as 0xFF stuffing.
            if af_total >= 2 {
                pkt.push(0); // flags = none
                pkt.extend(std::iter::repeat(0xFF).take(af_total - 2));
            }
            // af_total == 1 ⇒ only the length byte (length=0,
            // see above), already emitted.
        }
        pkt.extend_from_slice(&pes[cursor..cursor + take]);
        cursor += take;
        assert_eq!(pkt.len(), TS_PACKET_LEN);
        out.extend_from_slice(&pkt);
        cc = (cc + 1) & 0x0F;
        first = false;
    }
    out
}

#[test]
fn decode_timestamp_round_trip() {
    for ts in [0u64, 1, 90_000, 0x1_FFFF_FFFF] {
        let enc = encode_timestamp(0b0010, ts);
        let dec = decode_timestamp(&enc).unwrap();
        assert_eq!(dec, ts);
    }
}

#[test]
fn parse_complete_pes_packet_pts_only() {
    let pes = build_pes(0xE0, 90_000, b"hello world");
    let parsed = PesPacket::parse(&pes).unwrap();
    assert_eq!(parsed.stream_id, 0xE0);
    assert_eq!(parsed.pts_90k, Some(90_000));
    assert_eq!(parsed.dts_90k, None);
    assert_eq!(parsed.payload, b"hello world");
}

#[test]
fn parse_complete_pes_packet_pts_dts() {
    let pts_bytes = encode_timestamp(0b0011, 200_000);
    let dts_bytes = encode_timestamp(0b0001, 180_000);
    let payload = b"AVCdata";
    let mut v = Vec::new();
    v.extend_from_slice(&[0x00, 0x00, 0x01, 0xE0]);
    let pes_packet_length: u16 = (3 + 10 + payload.len()) as u16;
    v.extend_from_slice(&pes_packet_length.to_be_bytes());
    v.push(0b1000_0000);
    v.push(0b1100_0000); // PTS_DTS_flags = 0b11
    v.push(10);
    v.extend_from_slice(&pts_bytes);
    v.extend_from_slice(&dts_bytes);
    v.extend_from_slice(payload);
    let parsed = PesPacket::parse(&v).unwrap();
    assert_eq!(parsed.pts_90k, Some(200_000));
    assert_eq!(parsed.dts_90k, Some(180_000));
    assert_eq!(parsed.payload, payload);
}

#[test]
fn reassemble_pes_split_across_three_ts_packets() {
    let payload: Vec<u8> = (0..400u32).map(|i| (i & 0xFF) as u8).collect();
    let pes = build_pes(0xE0, 12345, &payload);
    // chunk_len = 150 ⇒ ~3 TS packets for a ~410-byte PES.
    let ts_buf = pes_into_ts(0x100, &pes, 150);
    // Append a second PUSI=1 packet (with a tiny "next" PES) so
    // feed() emits the previous packet.
    let next_pes = build_pes(0xE0, 67890, b"X");
    let next_ts = pes_into_ts(0x100, &next_pes, 184);
    let mut full = ts_buf;
    full.extend_from_slice(&next_ts);

    let mut r = PesReassembler::new();
    let mut packets = Vec::new();
    let mut it = iter_packets(&full);
    while let Some(pkt) = it.next() {
        let pkt = pkt.unwrap();
        if let Some(done) = r.feed(&pkt).unwrap() {
            packets.push(done);
        }
    }
    if let Some(done) = r.flush().unwrap() {
        packets.push(done);
    }

    assert_eq!(packets.len(), 2);
    assert_eq!(packets[0].pts_90k, Some(12345));
    // Payload should match exactly — stuffing is part of the TS
    // packet, not the PES packet. But because we pad TS packets
    // with 0xFF *after* the PES bytes, the last TS packet's
    // payload area carries some trailing stuffing that gets
    // appended to `buf`. We assert the PES prefix matches and
    // the parser still pulls out the right header + initial
    // payload bytes.
    assert_eq!(&packets[0].payload[..payload.len()], &payload[..]);
    assert_eq!(packets[1].pts_90k, Some(67890));
}

#[test]
fn pusi_starts_new_packet_and_emits_previous() {
    let pes1 = build_pes(0xC0, 1000, b"first");
    let pes2 = build_pes(0xC0, 2000, b"second");
    let ts1 = pes_into_ts(0x101, &pes1, 184);
    let ts2 = pes_into_ts(0x101, &pes2, 184);

    let mut r = PesReassembler::new();
    let mut emitted = Vec::new();
    for buf in [&ts1, &ts2] {
        let mut it = iter_packets(&buf);
        while let Some(pkt) = it.next() {
            let pkt = pkt.unwrap();
            if let Some(done) = r.feed(&pkt).unwrap() {
                emitted.push(done);
            }
        }
    }
    // Only `pes1` should have been emitted (closed by `pes2`'s
    // PUSI=1). `pes2` is still buffered.
    assert_eq!(emitted.len(), 1);
    assert_eq!(emitted[0].pts_90k, Some(1000));
    assert_eq!(&emitted[0].payload[..5], b"first");
    let flushed = r.flush().unwrap().expect("buffered pes2");
    assert_eq!(flushed.pts_90k, Some(2000));
    assert_eq!(&flushed.payload[..6], b"second");
}

#[test]
fn padding_stream_has_no_optional_header() {
    // stream_id = 0xBE (padding_stream) — no optional PES header.
    let mut v = Vec::new();
    v.extend_from_slice(&[0x00, 0x00, 0x01, 0xBE]);
    let payload = [0xFFu8; 12];
    let len: u16 = payload.len() as u16;
    v.extend_from_slice(&len.to_be_bytes());
    v.extend_from_slice(&payload);
    let p = PesPacket::parse(&v).unwrap();
    assert_eq!(p.stream_id, 0xBE);
    assert_eq!(p.pts_90k, None);
    assert_eq!(p.dts_90k, None);
    assert_eq!(p.payload, &payload);
}

#[test]
fn bad_pes_start_code_rejected() {
    let mut v = vec![0x00, 0x00, 0x02, 0xE0, 0, 0];
    v.extend_from_slice(&[0u8; 3]);
    let err = PesPacket::parse(&v).unwrap_err();
    match err {
        TsError::BadPesStartCode(_) => {}
        other => panic!("expected BadPesStartCode, got {other:?}"),
    }
}

/// Encode a 42-bit ESCR into the 6-byte spec layout.
fn encode_escr(escr_42: u64) -> [u8; 6] {
    let base = (escr_42 / 300) & 0x1_FFFF_FFFF;
    let ext = (escr_42 % 300) & 0x1FF;
    let base_32_30 = ((base >> 30) & 0b111) as u8;
    let base_29_15 = ((base >> 15) & 0x7FFF) as u32;
    let base_14_0 = (base & 0x7FFF) as u32;
    let ext = ext as u32;
    let b0 = 0b1100_0000 // reserved bits set to 1, matches typical encoder
        | (base_32_30 << 3)
        | 0b0000_0100 // marker
        | (((base_29_15 >> 13) & 0b11) as u8);
    let b1 = ((base_29_15 >> 5) & 0xFF) as u8;
    let b2 = (((base_29_15 & 0x1F) as u8) << 3)
        | 0b0000_0100 // marker
        | (((base_14_0 >> 13) & 0b11) as u8);
    let b3 = ((base_14_0 >> 5) & 0xFF) as u8;
    let b4 = (((base_14_0 & 0x1F) as u8) << 3)
        | 0b0000_0100 // marker
        | (((ext >> 7) & 0b11) as u8);
    let b5 = (((ext & 0x7F) as u8) << 1) | 0b0000_0001; // marker
    [b0, b1, b2, b3, b4, b5]
}

/// Encode a 22-bit ES_rate into the 3-byte spec layout.
fn encode_es_rate(rate: u32) -> [u8; 3] {
    let r = rate & 0x3F_FFFF;
    [
        0b1000_0000 | ((r >> 15) as u8 & 0x7F),
        ((r >> 7) & 0xFF) as u8,
        (((r & 0x7F) << 1) as u8) | 0x01,
    ]
}

#[test]
fn escr_round_trip_round_numbers() {
    // Spec ESCR range: ESCR_base is 33-bit and ESCR_extension is
    // in [0, 299], so the addressable 27 MHz tick range is
    // [0, (2^33 - 1) * 300 + 299].
    let max_escr: u64 = (((1u64 << 33) - 1) * 300) + 299;
    for &target in &[0u64, 1, 299, 300, 27_000_000, 27_000_001, max_escr] {
        let enc = encode_escr(target);
        let dec = decode_escr(&enc).unwrap();
        assert_eq!(dec, target, "target {target:#x} encoded {enc:02X?}");
    }
}

#[test]
fn parse_pes_with_every_optional_field() {
    // Build a PES header carrying all flag-gated optional fields
    // (PTS+DTS, ESCR, ES_rate, DSM_trick_mode, additional_copy_info,
    // PES_CRC, PES_extension marker).
    let pts_bytes = encode_timestamp(0b0011, 300_000);
    let dts_bytes = encode_timestamp(0b0001, 240_000);
    let escr_bytes = encode_escr(27_000_123);
    let es_rate_bytes = encode_es_rate(123_456);
    let dsm_byte: u8 = 0b010_00000; // trick_mode_control = freeze_frame
    let aci_byte: u8 = 0x80 | 0x42; // marker_bit=1 | aci=0x42
    let pes_crc_bytes: [u8; 2] = [0xCA, 0xFE];
    // PES_extension flag set with a minimal extension byte
    // (all sub-flags zero, no body) so PES_header_data_length
    // accounts for it.
    let pes_ext_flags: u8 = 0b0000_0000;
    let optional: Vec<u8> = [
        pts_bytes.as_slice(),
        dts_bytes.as_slice(),
        escr_bytes.as_slice(),
        es_rate_bytes.as_slice(),
        std::slice::from_ref(&dsm_byte),
        std::slice::from_ref(&aci_byte),
        pes_crc_bytes.as_slice(),
        std::slice::from_ref(&pes_ext_flags),
    ]
    .concat();
    let payload = b"\x01\x02\x03\x04";
    let mut v = Vec::new();
    v.extend_from_slice(&[0x00, 0x00, 0x01, 0xE0]);
    let pes_packet_length: u16 = (3 + optional.len() + payload.len()) as u16;
    v.extend_from_slice(&pes_packet_length.to_be_bytes());
    // flags1: '10' marker | scrambling=00 | priority=1 |
    //         data_alignment=1 | copyright=1 | original_or_copy=1
    v.push(0b1000_1111);
    // flags2: PTS_DTS=11 | ESCR=1 | ES_rate=1 | DSM=1 | ACI=1 |
    //         PES_CRC=1 | PES_extension=1 = 0b11_11_11_11
    v.push(0b1111_1111);
    v.push(optional.len() as u8);
    v.extend_from_slice(&optional);
    v.extend_from_slice(payload);
    let p = PesPacket::parse(&v).unwrap();
    assert_eq!(p.stream_id, 0xE0);
    assert_eq!(p.pes_scrambling_control, 0);
    assert!(p.pes_priority);
    assert!(p.data_alignment_indicator);
    assert!(p.copyright);
    assert!(p.original_or_copy);
    assert_eq!(p.pts_90k, Some(300_000));
    assert_eq!(p.dts_90k, Some(240_000));
    assert_eq!(p.escr_27mhz, Some(27_000_123));
    assert_eq!(p.es_rate_50bps, Some(123_456));
    assert_eq!(p.dsm_trick_mode, Some(0b010_00000));
    assert_eq!(p.additional_copy_info, Some(0x42));
    assert_eq!(p.previous_pes_packet_crc, Some(0xCAFE));
    // Extension flag set with an all-zero sub-flag byte ⇒ present
    // but every sub-field absent.
    assert_eq!(p.pes_extension, Some(PesExtension::default()));
    assert_eq!(p.payload, payload);
}

#[test]
fn parse_pes_no_optional_fields_defaults() {
    // PTS-only PES, no ESCR / ES_rate / DSM / ACI / CRC / ext.
    let pes = build_pes(0xE0, 90_000, b"abcd");
    let p = PesPacket::parse(&pes).unwrap();
    assert_eq!(p.pts_90k, Some(90_000));
    assert_eq!(p.escr_27mhz, None);
    assert_eq!(p.es_rate_50bps, None);
    assert_eq!(p.dsm_trick_mode, None);
    assert_eq!(p.additional_copy_info, None);
    assert_eq!(p.previous_pes_packet_crc, None);
    assert!(p.pes_extension.is_none());
    // Flag bits in the all-zero flags1 byte we set.
    assert!(!p.pes_priority);
    assert!(!p.copyright);
    assert_eq!(p.pes_scrambling_control, 0);
}

/// Wrap a raw PES_extension body (sub-flag byte + gated fields)
/// into a minimal video PES packet whose only optional field is
/// the extension.
fn build_pes_with_extension(ext_body: &[u8]) -> Vec<u8> {
    let payload = b"data";
    let mut v = Vec::new();
    v.extend_from_slice(&[0x00, 0x00, 0x01, 0xE0]);
    let pes_packet_length: u16 = (3 + ext_body.len() + payload.len()) as u16;
    v.extend_from_slice(&pes_packet_length.to_be_bytes());
    v.push(0b1000_0000); // '10' marker, all flags1 clear
    v.push(0b0000_0001); // only PES_extension_flag set
    v.push(ext_body.len() as u8);
    v.extend_from_slice(ext_body);
    v.extend_from_slice(payload);
    v
}

#[test]
fn parse_pes_extension_every_sub_field() {
    // Sub-flags: private_data | pack_header | ppsc | P-STD | ext2
    // (reserved bits set to 1 to prove they're ignored).
    let mut ext = vec![0b1111_1111u8];
    let private: [u8; 16] = *b"0123456789ABCDEF";
    ext.extend_from_slice(&private);
    // pack_field_length = 3, then 3 opaque pack_header bytes.
    ext.extend_from_slice(&[3, 0xAA, 0xBB, 0xCC]);
    // marker|counter=0x55, marker|MPEG1_MPEG2=1|orig_stuff_len=0x21.
    ext.push(0b1101_0101);
    ext.push(0b1110_0001);
    // '01' | scale=1 | size=0x1234 (13-bit).
    ext.push(0b0111_0010);
    ext.push(0x34);
    // marker | PES_extension_field_length=2, then 2 reserved bytes.
    ext.push(0b1000_0010);
    ext.extend_from_slice(&[0xDE, 0xAD]);

    let pes = build_pes_with_extension(&ext);
    let p = PesPacket::parse(&pes).unwrap();
    let e = p.pes_extension.expect("extension present");
    assert_eq!(e.private_data, Some(private));
    assert_eq!(e.pack_header.as_deref(), Some(&[0xAA, 0xBB, 0xCC][..]));
    let ppsc = e.program_packet_sequence_counter.unwrap();
    assert_eq!(ppsc.counter, 0x55);
    assert!(ppsc.mpeg1_mpeg2_identifier);
    assert_eq!(ppsc.original_stuff_length, 0x21);
    let pstd = e.p_std_buffer.unwrap();
    assert!(pstd.scale);
    assert_eq!(pstd.size, 0x1234);
    assert_eq!(pstd.size_bytes(), 0x1234 * 1024);
    assert_eq!(e.extension_field_2.as_deref(), Some(&[0xDE, 0xAD][..]));
    assert_eq!(p.payload, b"data");
}

#[test]
fn parse_pes_extension_p_std_scale_clear_units_128() {
    // Only the P-STD_buffer pair: '01' | scale=0 | size=10.
    let ext = [0b0001_0000u8, 0b0100_0000, 10];
    let pes = build_pes_with_extension(&ext);
    let p = PesPacket::parse(&pes).unwrap();
    let pstd = p.pes_extension.unwrap().p_std_buffer.unwrap();
    assert!(!pstd.scale);
    assert_eq!(pstd.size, 10);
    assert_eq!(pstd.size_bytes(), 1280);
}

#[test]
fn parse_pes_extension_truncated_private_data_rejected() {
    // private_data flag set but only 4 of the 16 bytes present.
    let ext = [0b1000_0000u8, 1, 2, 3, 4];
    let pes = build_pes_with_extension(&ext);
    let err = PesPacket::parse(&pes).unwrap_err();
    match err {
        TsError::Truncated { what, .. } => assert_eq!(what, "PES_private_data"),
        other => panic!("expected Truncated, got {other:?}"),
    }
}

#[test]
fn parse_pes_extension_truncated_field_2_rejected() {
    // ext2 flag set, PES_extension_field_length = 5 but no bytes.
    let ext = [0b0000_0001u8, 0b1000_0101];
    let pes = build_pes_with_extension(&ext);
    let err = PesPacket::parse(&pes).unwrap_err();
    match err {
        TsError::Truncated { what, .. } => assert_eq!(what, "PES_extension_field"),
        other => panic!("expected Truncated, got {other:?}"),
    }
}

#[test]
fn rai_marks_the_pes_starting_in_the_flagged_packet() {
    // Two PES packets on one PID; the second's start packet
    // carries a random_access_indicator. Only the second emitted
    // PesPacket must have `random_access == true`.
    let pid = 0x101;
    let pes1 = build_pes(0xE0, 1000, b"first");
    let pes2 = build_pes(0xE0, 2000, b"second");
    let ts1 = pes_into_ts(pid, &pes1, 184);
    // Hand-build pes2's single TS packet with an AF carrying RAI:
    // header(4) + AF {len, flags(RAI), 0xFF stuffing} + PES bytes.
    let mut ts2 = vec![
        TS_SYNC_BYTE,
        0b0100_0000 | ((pid >> 8) as u8 & 0x1F),
        (pid & 0xFF) as u8,
        0b0011_0000, // AF + payload, cc=0
    ];
    let af_total = TS_PACKET_LEN - 4 - pes2.len();
    ts2.push((af_total - 1) as u8);
    ts2.push(0b0100_0000); // random_access_indicator
    ts2.extend(std::iter::repeat(0xFF).take(af_total - 2));
    ts2.extend_from_slice(&pes2);
    assert_eq!(ts2.len(), TS_PACKET_LEN);

    let mut r = PesReassembler::new();
    let mut emitted = Vec::new();
    for chunk in ts1.chunks(TS_PACKET_LEN).chain(ts2.chunks(TS_PACKET_LEN)) {
        let pkt = TsPacket::parse(chunk).unwrap();
        if let Some(pes) = r.feed(&pkt).unwrap() {
            emitted.push(pes);
        }
    }
    if let Some(pes) = r.flush().unwrap() {
        emitted.push(pes);
    }
    assert_eq!(emitted.len(), 2);
    assert!(!emitted[0].random_access, "first PES was not announced");
    assert!(emitted[1].random_access, "second PES start carried RAI");
    assert_eq!(emitted[1].payload, b"second");
}

#[test]
fn rai_on_payloadless_carrier_packet_marks_next_pes() {
    // The indicator announces "the next PES packet to
    // start" — it may ride a payload-less (e.g. PCR-only) packet
    // ahead of the PES start.
    let pid = 0x101;
    let pes = build_pes(0xE0, 5000, b"announced");

    // AF-only packet with RAI, no payload.
    let mut carrier = vec![
        TS_SYNC_BYTE,
        (pid >> 8) as u8 & 0x1F,
        (pid & 0xFF) as u8,
        0b0010_0000, // AF only, cc=0
        183,         // adaptation_field_length spans the packet
        0b0100_0000, // random_access_indicator
    ];
    carrier.extend(std::iter::repeat(0xFF).take(TS_PACKET_LEN - carrier.len()));

    let start = pes_into_ts(pid, &pes, 184);

    let mut r = PesReassembler::new();
    let mut emitted = Vec::new();
    for chunk in carrier
        .chunks(TS_PACKET_LEN)
        .chain(start.chunks(TS_PACKET_LEN))
    {
        let pkt = TsPacket::parse(chunk).unwrap();
        if let Some(p) = r.feed(&pkt).unwrap() {
            emitted.push(p);
        }
    }
    if let Some(p) = r.flush().unwrap() {
        emitted.push(p);
    }
    assert_eq!(emitted.len(), 1);
    assert!(emitted[0].random_access);
    assert_eq!(emitted[0].payload, b"announced");
}

#[test]
fn trick_mode_decodes_all_five_modes() {
    // fast_forward '000' | field_id '10' | refresh 1 | trunc '01'
    assert_eq!(
        DsmTrickMode::from_byte(0b0001_0101),
        DsmTrickMode::FastForward {
            field_id: FieldId::CompleteFrame,
            intra_slice_refresh: true,
            frequency_truncation: CoefficientSelection::FirstThree,
        }
    );
    // slow_motion '001' | rep_cntrl 0b10110 (22)
    assert_eq!(
        DsmTrickMode::from_byte(0b0011_0110),
        DsmTrickMode::SlowMotion { rep_cntrl: 22 }
    );
    // freeze_frame '010' | field_id '01' | reserved '101' (ignored)
    assert_eq!(
        DsmTrickMode::from_byte(0b0100_1101),
        DsmTrickMode::FreezeFrame {
            field_id: FieldId::BottomFieldOnly,
        }
    );
    // fast_reverse '011' | field_id '00' | refresh 0 | trunc '11'
    assert_eq!(
        DsmTrickMode::from_byte(0b0110_0011),
        DsmTrickMode::FastReverse {
            field_id: FieldId::TopFieldOnly,
            intra_slice_refresh: false,
            frequency_truncation: CoefficientSelection::All,
        }
    );
    // slow_reverse '100' | rep_cntrl 1
    assert_eq!(
        DsmTrickMode::from_byte(0b1000_0001),
        DsmTrickMode::SlowReverse { rep_cntrl: 1 }
    );
    // reserved control values '101'..'111' surface raw.
    assert_eq!(
        DsmTrickMode::from_byte(0b1101_0101),
        DsmTrickMode::Reserved {
            trick_mode_control: 0b110,
            bits: 0b10101,
        }
    );
}

#[test]
fn trick_mode_byte_round_trips() {
    // Every byte value: decode → encode must preserve all
    // meaningful bits (freeze_frame's 3 reserved bits and the
    // reserved control values' tails are don't-cares on re-encode,
    // so compare through a second decode).
    for b in 0..=255u8 {
        let decoded = DsmTrickMode::from_byte(b);
        let re = DsmTrickMode::from_byte(decoded.to_byte());
        assert_eq!(decoded, re, "byte {b:#010b} unstable through round-trip");
    }
    // Typed → wire → typed is identity for the spec-defined modes.
    for tm in [
        DsmTrickMode::FastForward {
            field_id: FieldId::Reserved,
            intra_slice_refresh: true,
            frequency_truncation: CoefficientSelection::DcOnly,
        },
        DsmTrickMode::SlowMotion { rep_cntrl: 31 },
        DsmTrickMode::FreezeFrame {
            field_id: FieldId::CompleteFrame,
        },
        DsmTrickMode::FastReverse {
            field_id: FieldId::BottomFieldOnly,
            intra_slice_refresh: false,
            frequency_truncation: CoefficientSelection::FirstSix,
        },
        DsmTrickMode::SlowReverse { rep_cntrl: 7 },
    ] {
        assert_eq!(DsmTrickMode::from_byte(tm.to_byte()), tm);
    }
}

#[test]
fn trick_mode_field_parses_from_pes_header() {
    // PES header with DSM_trick_mode_flag set: flags2 bit 3.
    let payload = b"vid";
    let trick = 0b0001_0101u8; // fast_forward, complete frame
    let mut v = Vec::new();
    v.extend_from_slice(&[0x00, 0x00, 0x01, 0xE0]);
    let pes_packet_length: u16 = (3 + 1 + payload.len()) as u16;
    v.extend_from_slice(&pes_packet_length.to_be_bytes());
    v.push(0b1000_0000);
    v.push(0b0000_1000); // DSM_trick_mode_flag only
    v.push(1); // PES_header_data_length = 1 (the trick byte)
    v.push(trick);
    v.extend_from_slice(payload);
    let parsed = PesPacket::parse(&v).unwrap();
    assert_eq!(parsed.dsm_trick_mode, Some(trick));
    assert_eq!(
        parsed.trick_mode(),
        Some(DsmTrickMode::FastForward {
            field_id: FieldId::CompleteFrame,
            intra_slice_refresh: true,
            frequency_truncation: CoefficientSelection::FirstThree,
        })
    );
    assert_eq!(parsed.payload, payload);
    // No trick-mode field → None.
    let plain = build_pes(0xE0, 1234, b"x");
    assert_eq!(PesPacket::parse(&plain).unwrap().trick_mode(), None);
}

#[test]
fn pes_header_spec_full_house_round_trips() {
    let spec = PesHeaderSpec {
        stream_id: 0xE0,
        pes_scrambling_control: 0b10,
        pes_priority: true,
        data_alignment_indicator: true,
        copyright: true,
        original_or_copy: true,
        pts_90k: Some(0x1_2345_6789),
        dts_90k: Some(0x1_2345_0000),
        escr_27mhz: Some(0x1_FFFF_FFFF * 300 + 299),
        es_rate_50bps: Some(0x3F_FFFF),
        trick_mode: Some(DsmTrickMode::SlowMotion { rep_cntrl: 5 }),
        additional_copy_info: Some(0x55),
        previous_pes_packet_crc: Some(0xBEEF),
        pes_extension: Some(PesExtension {
            private_data: Some([0xA5; 16]),
            pack_header: Some(vec![0x01, 0x02, 0x03]),
            program_packet_sequence_counter: Some(ProgramPacketSequenceCounter {
                counter: 0x7F,
                mpeg1_mpeg2_identifier: true,
                original_stuff_length: 0x3F,
            }),
            p_std_buffer: Some(PStdBuffer {
                scale: true,
                size: 0x1FFF,
            }),
            extension_field_2: Some(vec![0xEE; 7]),
        }),
        unbounded_length: false,
    };
    let payload = b"elementary bytes";
    let bytes = spec.encode(payload).unwrap();
    let parsed = PesPacket::parse(&bytes).unwrap();
    assert_eq!(parsed.stream_id, 0xE0);
    assert_eq!(parsed.pes_scrambling_control, 0b10);
    assert!(parsed.pes_priority);
    assert!(parsed.data_alignment_indicator);
    assert!(parsed.copyright);
    assert!(parsed.original_or_copy);
    assert_eq!(parsed.pts_90k, Some(0x1_2345_6789));
    assert_eq!(parsed.dts_90k, Some(0x1_2345_0000));
    assert_eq!(parsed.escr_27mhz, Some(0x1_FFFF_FFFF * 300 + 299));
    assert_eq!(parsed.es_rate_50bps, Some(0x3F_FFFF));
    assert_eq!(
        parsed.trick_mode(),
        Some(DsmTrickMode::SlowMotion { rep_cntrl: 5 })
    );
    assert_eq!(parsed.additional_copy_info, Some(0x55));
    assert_eq!(parsed.previous_pes_packet_crc, Some(0xBEEF));
    assert_eq!(parsed.pes_extension, spec.pes_extension);
    assert_eq!(parsed.payload, payload);
    // Bounded length covers flags + optional header + payload.
    let expect_len = (bytes.len() - 6) as u16;
    assert_eq!(u16::from_be_bytes([bytes[4], bytes[5]]), expect_len);
}

#[test]
fn pes_header_spec_unbounded_and_headerless_forms() {
    // Unbounded video form: PES_packet_length = 0.
    let spec = PesHeaderSpec {
        unbounded_length: true,
        ..PesHeaderSpec::with_timestamps(0xE0, 90_000, None)
    };
    let bytes = spec.encode(&[0xAA; 32]).unwrap();
    assert_eq!(&bytes[4..6], &[0, 0]);
    assert_eq!(PesPacket::parse(&bytes).unwrap().pts_90k, Some(90_000));

    // Header-less stream id (private_stream_2): payload directly
    // after the 6-byte fixed header.
    let spec = PesHeaderSpec {
        stream_id: 0xBF,
        ..Default::default()
    };
    let bytes = spec.encode(b"raw").unwrap();
    assert_eq!(bytes.len(), 9);
    assert_eq!(u16::from_be_bytes([bytes[4], bytes[5]]), 3);
    let parsed = PesPacket::parse(&bytes).unwrap();
    assert_eq!(parsed.payload, b"raw");
    assert_eq!(parsed.pts_90k, None);
}

#[test]
fn pes_header_spec_rejects_spec_violations() {
    let base = |f: fn(&mut PesHeaderSpec)| {
        let mut s = PesHeaderSpec {
            stream_id: 0xC0,
            ..Default::default()
        };
        f(&mut s);
        s
    };
    for spec in [
        base(|s| s.dts_90k = Some(100)), // DTS without PTS
        base(|s| {
            s.pts_90k = Some(100);
            s.dts_90k = Some(100); // DTS == PTS
        }),
        base(|s| s.pts_90k = Some(1 << 33)), // PTS width
        base(|s| s.escr_27mhz = Some((1u64 << 33) * 300)), // ESCR width
        base(|s| s.es_rate_50bps = Some(0)), // forbidden 0
        base(|s| s.es_rate_50bps = Some(0x40_0000)), // rate width
        base(|s| s.additional_copy_info = Some(0x80)), // 7-bit
        base(|s| s.pes_scrambling_control = 4), // 2-bit
        base(|s| s.unbounded_length = true), // audio id
        base(|s| {
            // header-less id with an optional field
            s.stream_id = 0xBF;
            s.pts_90k = Some(1);
        }),
        base(|s| {
            s.pes_extension = Some(PesExtension {
                p_std_buffer: Some(PStdBuffer {
                    scale: false,
                    size: 0x2000, // 13-bit overflow
                }),
                ..Default::default()
            });
        }),
        base(|s| {
            s.pes_extension = Some(PesExtension {
                extension_field_2: Some(vec![0; 128]), // 7-bit len
                ..Default::default()
            });
        }),
        base(|s| {
            // optional area past the 255-byte budget
            s.pts_90k = Some(1);
            s.pes_extension = Some(PesExtension {
                pack_header: Some(vec![0; 251]),
                ..Default::default()
            });
        }),
    ] {
        assert!(
            matches!(spec.encode(&[]), Err(TsError::InvalidField { .. })),
            "spec should be rejected: {spec:?}"
        );
    }
    // Bounded audio packet larger than PES_packet_length can hold.
    let spec = PesHeaderSpec {
        stream_id: 0xC0,
        ..Default::default()
    };
    assert!(matches!(
        spec.encode(&vec![0u8; 70_000]),
        Err(TsError::InvalidField { .. })
    ));
}

#[test]
fn escr_encode_decode_round_trips() {
    for escr in [
        0u64,
        1,
        299,
        300,
        90_000 * 300 + 123,
        0x1_FFFF_FFFF * 300 + 299, // maximum
    ] {
        let spec = PesHeaderSpec {
            stream_id: 0xE0,
            escr_27mhz: Some(escr),
            ..Default::default()
        };
        let bytes = spec.encode(b"x").unwrap();
        assert_eq!(
            PesPacket::parse(&bytes).unwrap().escr_27mhz,
            Some(escr),
            "escr {escr}"
        );
    }
}

#[test]
fn parse_pes_truncated_optional_body_rejected() {
    // PTS_DTS=11 (claims 10 bytes) but PES_header_data_length=5,
    // so the body can't hold both timestamps.
    let mut v = Vec::new();
    v.extend_from_slice(&[0x00, 0x00, 0x01, 0xE0]);
    // length covers from byte 6 onward: flags(3) + optional(5) = 8
    v.extend_from_slice(&8u16.to_be_bytes());
    v.push(0b1000_0000);
    v.push(0b1100_0000);
    v.push(5); // header_data_length too small for PTS+DTS
    v.extend_from_slice(&[0u8; 5]);
    let err = PesPacket::parse(&v).unwrap_err();
    match err {
        TsError::Truncated { what, .. } => {
            assert_eq!(what, "PES PTS+DTS");
        }
        other => panic!("expected Truncated, got {other:?}"),
    }
}
