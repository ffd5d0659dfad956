use oxideav_mpegts::build::{build_pat, build_pmt, PmtStreamEntry};
use oxideav_mpegts::packet::{
    AdaptationFieldExtensionSpec, AdaptationFieldSpec, TsPacketLayout, TS_PACKET_LEN, TS_SYNC_BYTE,
};
use oxideav_mpegts::validate::validate_ts;

/// PID of padding.
const NULL_PID: u16 = 0x1FFF;

/// Build one 188-byte TS packet.
fn ts_packet(
    pid: u16,
    pusi: bool,
    cc: u8,
    afc: u8,
    af: Option<&[u8]>,
    payload: &[u8],
    psi: bool,
) -> [u8; TS_PACKET_LEN] {
    let mut pkt = [0xFFu8; TS_PACKET_LEN];
    pkt[0] = TS_SYNC_BYTE;
    pkt[1] = (if pusi { 0b0100_0000 } else { 0 }) | ((pid >> 8) as u8 & 0x1F);
    pkt[2] = pid as u8;
    pkt[3] = (afc << 4) | (cc & 0x0F);
    let mut off = 4usize;
    if let Some(af_bytes) = af {
        pkt[off..off + af_bytes.len()].copy_from_slice(af_bytes);
        off += af_bytes.len();
    }
    if psi && pusi {
        pkt[off] = 0; // pointer_field
        off += 1;
    }
    pkt[off..off + payload.len()].copy_from_slice(payload);
    // PSI stuffing stays 0xFF; PES-side callers size their AF so
    // the payload fills the packet exactly.
    pkt
}

/// Assemble a minimal single-program TS: PAT, PMT (PCR PID =
/// video PID 0x101), then `n_pes` one-packet video PES units with
/// a PCR on each PES start, ~30 ms apart (inside the gap
/// bound).
fn clean_stream(n_pes: usize) -> Vec<u8> {
    let mut out = Vec::new();
    let pat = build_pat(1, 0, &[(1, 0x0100)]);
    out.extend_from_slice(&ts_packet(0x0000, true, 0, 0b01, None, &pat, true));
    let pmt = build_pmt(
        1,
        0,
        0x0101,
        &[],
        &[PmtStreamEntry {
            stream_type: 0x1B,
            elementary_pid: 0x0101,
            es_info: Vec::new(),
        }],
    );
    out.extend_from_slice(&ts_packet(0x0100, true, 0, 0b01, None, &pmt, true));

    // Tiny video PES with no timestamps: 6-byte header + flags.
    let pes: &[u8] = &[
        0x00,
        0x00,
        0x01,
        0xE0,
        0x00,
        0x08, // PES_packet_length = 8
        0b1000_0000,
        0b0000_0000,
        0x00, // no optional fields
        0xAA,
        0xBB,
        0xCC,
        0xDD,
        0xEE, // payload
    ];
    for i in 0..n_pes {
        // PCR every packet, 30 ms (810_000 ticks) apart.
        let base = (i as u64) * 2_700; // 90 kHz: 30 ms
        let af = AdaptationFieldSpec::with_pcr(base, 0)
            .encode(Some(TS_PACKET_LEN - 4 - pes.len()))
            .unwrap();
        out.extend_from_slice(&ts_packet(
            0x0101,
            true,
            (i % 16) as u8,
            0b11,
            Some(&af),
            pes,
            false,
        ));
    }
    out
}

/// One payload packet on `pid` with optional splice fields, AF
/// stuffed so the payload fills the packet.
fn splice_pkt(
    pid: u16,
    cc: u8,
    countdown: Option<i8>,
    seamless: Option<(u8, u64)>,
    payload_len: usize,
) -> [u8; TS_PACKET_LEN] {
    let spec = AdaptationFieldSpec {
        splice_countdown: countdown,
        extension: seamless.map(|(t, d)| AdaptationFieldExtensionSpec {
            seamless_splice: Some((t, d)),
            ..Default::default()
        }),
        ..Default::default()
    };
    let af = spec.encode(Some(TS_PACKET_LEN - 4 - payload_len)).unwrap();
    ts_packet(
        pid,
        false,
        cc,
        0b11,
        Some(&af),
        &vec![0xAB; payload_len],
        false,
    )
}

/// splice_countdown progression: exact counts (with
/// sparse annotation) pass; a value contradicting the payload
/// packet count is flagged.
#[test]
fn splice_countdown_progression_checked() {
    let pid = 0x0102;
    // Consistent: 3, (unannotated), 1, 0, -1.
    let mut bytes = clean_stream(2);
    for (i, (c, s)) in [
        (Some(3i8), None),
        (None, None),
        (Some(1), None),
        (Some(0), None),
        (Some(-1), None),
    ]
    .into_iter()
    .enumerate()
    {
        bytes.extend_from_slice(&splice_pkt(pid, i as u8, c, s, 32));
    }
    let report = validate_ts(&bytes);
    assert_eq!(report.violations.splice_countdown_inconsistent, 0);
    assert!(report.is_conformant(), "{:?}", report.violations);

    // Inconsistent: 2 then 0 with only one payload packet between.
    let mut bytes = clean_stream(2);
    bytes.extend_from_slice(&splice_pkt(pid, 0, Some(2), None, 32));
    bytes.extend_from_slice(&splice_pkt(pid, 1, Some(0), None, 32));
    let report = validate_ts(&bytes);
    assert_eq!(report.violations.splice_countdown_inconsistent, 1);
    assert!(!report.is_conformant());
}

/// Seamless-splice continuation: dropping the fields (or
/// changing their values) mid-run is flagged; a clean run is not.
#[test]
fn seamless_splice_run_continuity_checked() {
    let pid = 0x0102;
    let pair = Some((0x3u8, 48_000u64));
    // Clean run: 2, 1, 0 all carrying the same pair.
    let mut bytes = clean_stream(2);
    for (i, c) in [2i8, 1, 0].into_iter().enumerate() {
        bytes.extend_from_slice(&splice_pkt(pid, i as u8, Some(c), pair, 32));
    }
    let report = validate_ts(&bytes);
    assert_eq!(report.violations.seamless_splice_run_broken, 0);
    assert!(report.is_conformant(), "{:?}", report.violations);

    // Broken run: the fields vanish on the countdown-1 packet.
    let mut bytes = clean_stream(2);
    bytes.extend_from_slice(&splice_pkt(pid, 0, Some(2), pair, 32));
    bytes.extend_from_slice(&splice_pkt(pid, 1, Some(1), None, 32));
    let report = validate_ts(&bytes);
    assert_eq!(report.violations.seamless_splice_run_broken, 1);

    // Broken run: DTS_next_AU changes mid-run.
    let mut bytes = clean_stream(2);
    bytes.extend_from_slice(&splice_pkt(pid, 0, Some(2), pair, 32));
    bytes.extend_from_slice(&splice_pkt(pid, 1, Some(1), Some((0x3, 50_000)), 32));
    let report = validate_ts(&bytes);
    assert_eq!(report.violations.seamless_splice_run_broken, 1);
}

/// A non-zero splice_type on a PMT-typed audio PID is
/// flagged.
#[test]
fn nonzero_splice_type_on_audio_checked() {
    let mut out = Vec::new();
    let pat = build_pat(1, 0, &[(1, 0x0100)]);
    out.extend_from_slice(&ts_packet(0x0000, true, 0, 0b01, None, &pat, true));
    let pmt = build_pmt(
        1,
        0,
        0x0102,
        &[],
        &[PmtStreamEntry {
            stream_type: 0x03, // MPEG-1 audio
            elementary_pid: 0x0102,
            es_info: Vec::new(),
        }],
    );
    out.extend_from_slice(&ts_packet(0x0100, true, 0, 0b01, None, &pmt, true));
    out.extend_from_slice(&splice_pkt(0x0102, 0, Some(1), Some((0x2, 900)), 32));
    out.extend_from_slice(&splice_pkt(0x0102, 1, Some(0), Some((0x2, 900)), 32));
    let report = validate_ts(&out);
    assert_eq!(report.violations.nonzero_splice_type_on_audio, 2);
    assert!(!report.is_conformant());

    // splice_type 0 on the same audio PID is fine.
    let mut out = Vec::new();
    let pat = build_pat(1, 0, &[(1, 0x0100)]);
    out.extend_from_slice(&ts_packet(0x0000, true, 0, 0b01, None, &pat, true));
    let pmt = build_pmt(
        1,
        0,
        0x0102,
        &[],
        &[PmtStreamEntry {
            stream_type: 0x03,
            elementary_pid: 0x0102,
            es_info: Vec::new(),
        }],
    );
    out.extend_from_slice(&ts_packet(0x0100, true, 0, 0b01, None, &pmt, true));
    out.extend_from_slice(&splice_pkt(0x0102, 0, Some(1), Some((0x0, 900)), 32));
    out.extend_from_slice(&splice_pkt(0x0102, 1, Some(0), Some((0x0, 900)), 32));
    let report = validate_ts(&out);
    assert_eq!(report.violations.nonzero_splice_type_on_audio, 0);
}

#[test]
fn clean_stream_validates_conformant() {
    let bytes = clean_stream(8);
    let report = validate_ts(&bytes);
    assert!(
        report.is_conformant(),
        "violations: {:?}",
        report.violations
    );
    assert_eq!(report.layout, Some(TsPacketLayout::STANDARD));
    assert_eq!(report.packets, 10);
    assert_eq!(report.programs, vec![(1, 0x0100)]);
    assert_eq!(report.pcr.len(), 1);
    let pcr = &report.pcr[0];
    assert_eq!(pcr.pid, 0x0101);
    assert_eq!(pcr.samples, 8);
    // 30 ms spacing = 810_000 ticks of 27 MHz.
    assert_eq!(pcr.max_interval_27mhz, Some(810_000));
    assert!(pcr.estimated_rate_bps.unwrap() > 0);
    assert_eq!(report.pat_sections, 1);
    assert_eq!(report.pids[&0x0101].packets, 8);
}

#[test]
fn cc_gap_and_transport_error_flagged() {
    let mut bytes = clean_stream(6);
    // Corrupt the CC of the 4th PES packet (packet index 5):
    // bump it by 2.
    let p = 5 * TS_PACKET_LEN;
    bytes[p + 3] = (bytes[p + 3] & 0xF0) | ((bytes[p + 3].wrapping_add(2)) & 0x0F);
    // Set transport_error_indicator on the last packet.
    let q = 7 * TS_PACKET_LEN;
    bytes[q + 1] |= 0b1000_0000;
    let report = validate_ts(&bytes);
    assert!(!report.is_conformant());
    // The CC bump breaks the chain twice (jump forward, then the
    // next packet's original CC no longer follows).
    assert!(report.violations.continuity_errors >= 1);
    assert_eq!(report.violations.transport_error_packets, 1);
    assert!(report.pids[&0x0101].continuity_errors >= 1);
}

#[test]
fn pcr_gap_beyond_bound_flagged_unless_signalled() {
    // Two PES packets whose PCRs sit 200 ms apart — over the
    // 0,1 s bound.
    let mut out = Vec::new();
    let pat = build_pat(1, 0, &[(1, 0x0100)]);
    out.extend_from_slice(&ts_packet(0x0000, true, 0, 0b01, None, &pat, true));
    let pmt = build_pmt(
        1,
        0,
        0x0101,
        &[],
        &[PmtStreamEntry {
            stream_type: 0x1B,
            elementary_pid: 0x0101,
            es_info: Vec::new(),
        }],
    );
    out.extend_from_slice(&ts_packet(0x0100, true, 0, 0b01, None, &pmt, true));
    let pes: &[u8] = &[0x00, 0x00, 0x01, 0xE0, 0x00, 0x04, 0b1000_0000, 0, 0, 0x42];
    for (i, base) in [(0u8, 0u64), (1, 18_000)] {
        // 18_000 ticks of 90 kHz = 200 ms.
        let af = AdaptationFieldSpec::with_pcr(base, 0)
            .encode(Some(TS_PACKET_LEN - 4 - pes.len()))
            .unwrap();
        out.extend_from_slice(&ts_packet(0x0101, true, i, 0b11, Some(&af), pes, false));
    }
    let report = validate_ts(&out);
    assert_eq!(report.violations.pcr_interval_exceeded, 1);
    assert_eq!(report.pcr[0].max_interval_27mhz, Some(5_400_000));

    // Same stream, but the second PCR announces a discontinuity —
    // the gap is then legitimate.
    let mut out2 = out.clone();
    let last = 3 * TS_PACKET_LEN;
    // Set discontinuity_indicator inside the AF flags byte.
    out2[last + 5] |= 0b1000_0000;
    let report2 = validate_ts(&out2);
    assert_eq!(report2.violations.pcr_interval_exceeded, 0);
    assert_eq!(report2.pcr[0].signalled_discontinuities, 1);
}

#[test]
fn out_of_range_pcr_extension_then_small_pcr_stays_total() {
    // The syntax bounds pcr_extension to 0..=299, but the 9-bit wire
    // field carries up to 511. A max-base + ext=511 sample used to
    // push `ticks` past the modulus, and the next in-range PCR
    // underflowed the wrap-delta subtraction. Validation must stay
    // total and keep counting on such nonconforming input.
    let mut out = Vec::new();
    let pat = build_pat(1, 0, &[(1, 0x0100)]);
    out.extend_from_slice(&ts_packet(0x0000, true, 0, 0b01, None, &pat, true));
    let pmt = build_pmt(
        1,
        0,
        0x0101,
        &[],
        &[PmtStreamEntry {
            stream_type: 0x1B,
            elementary_pid: 0x0101,
            es_info: Vec::new(),
        }],
    );
    out.extend_from_slice(&ts_packet(0x0100, true, 0, 0b01, None, &pmt, true));
    let pes: &[u8] = &[0x00, 0x00, 0x01, 0xE0, 0x00, 0x04, 0b1000_0000, 0, 0, 0x42];
    for (i, (base, ext)) in [((1u64 << 33) - 1, 511u16), (0, 0)].into_iter().enumerate() {
        let af = AdaptationFieldSpec::with_pcr(base, ext)
            .encode(Some(TS_PACKET_LEN - 4 - pes.len()))
            .unwrap();
        out.extend_from_slice(&ts_packet(0x0101, true, i as u8, 0b11, Some(&af), pes, false));
    }
    let report = validate_ts(&out);
    let pcr = report.pcr.iter().find(|p| p.pid == 0x0101).expect("pcr pid tracked");
    assert_eq!(pcr.samples, 2);
}

#[test]
fn af_pairing_violations_flagged() {
    let mut out = clean_stream(2);

    // Packet with OPCR but no PCR: AF flags byte = OPCR only.
    let mut af = vec![0u8; 9];
    af[0] = 8; // adaptation_field_length
    af[1] = 0b0000_1000; // OPCR_flag only
                         // 6 OPCR bytes (any) + trailing stuffing byte already zeroed.
    out.extend_from_slice(&ts_packet(
        0x0101,
        false,
        2,
        0b11,
        Some(&af),
        &[0xAB; 175],
        false,
    ));

    // Packet whose AF extension sets seamless_splice without
    // splicing_point_flag.
    // length, extension-only flags, ext length,
    // seamless_splice_flag, then DTS bytes + markers.
    let mut af2 = vec![8u8, 0b0000_0001, 6, 0b0010_0000];
    af2.extend_from_slice(&[0x01, 0x00, 0x01, 0x00, 0x01]);
    out.extend_from_slice(&ts_packet(
        0x0101,
        false,
        3,
        0b11,
        Some(&af2),
        &[0xCD; 175],
        false,
    ));

    // RAI on the PCR PID without a PCR.
    let af3 = vec![1u8, 0b0100_0000];
    out.extend_from_slice(&ts_packet(
        0x0101,
        false,
        4,
        0b11,
        Some(&af3),
        &[0xEF; 182],
        false,
    ));

    // AF-only packet with a length under 183.
    let af4 = AdaptationFieldSpec::default().encode(Some(20)).unwrap();
    out.extend_from_slice(&ts_packet(0x0101, false, 4, 0b10, Some(&af4), &[], false));

    let report = validate_ts(&out);
    assert_eq!(report.violations.opcr_without_pcr, 1);
    assert_eq!(report.violations.seamless_splice_without_splicing_point, 1);
    assert_eq!(report.violations.rai_without_pcr_on_pcr_pid, 1);
    assert_eq!(report.violations.bad_af_length, 1);
}

#[test]
fn reserved_afc_and_null_packets_classified() {
    let mut bytes = clean_stream(2);
    // A null packet (afc must be '01').
    bytes.extend_from_slice(&ts_packet(
        NULL_PID,
        false,
        0,
        0b01,
        None,
        &[0xFF; 10],
        false,
    ));
    // A packet with the reserved AF control '00'.
    bytes.extend_from_slice(&ts_packet(0x0101, false, 2, 0b00, None, &[], false));
    let report = validate_ts(&bytes);
    assert_eq!(report.null_packets, 1);
    assert_eq!(report.violations.reserved_afc, 1);
}

#[test]
fn corrupt_psi_crc_counted() {
    let mut bytes = clean_stream(2);
    // Flip a byte inside the PAT body (packet 0, after the
    // pointer field) so its CRC no longer matches.
    bytes[4 + 1 + 3] ^= 0xFF;
    let report = validate_ts(&bytes);
    assert_eq!(report.violations.bad_psi_sections, 1);
    // The PAT never parsed → no programs discovered, and the
    // report says so rather than crashing.
    assert!(report.programs.is_empty());
    assert_eq!(report.pat_sections, 0);
}

#[test]
fn garbage_and_truncation_are_bounded() {
    // Pure garbage: no layout, empty report.
    let report = validate_ts(&[0xAB; 4096]);
    assert_eq!(report.layout, None);
    assert_eq!(report.packets, 0);

    // A clean stream with a truncated tail packet: the partial
    // chunk is ignored, everything before it still validates.
    let mut bytes = clean_stream(4);
    bytes.extend_from_slice(&[0x47, 0x01, 0x01]); // 3 stray bytes
    let report = validate_ts(&bytes);
    assert_eq!(report.packets, 6);
    assert!(report.is_conformant(), "{:?}", report.violations);

    // Mid-stream corruption: overwrite one whole packet with
    // garbage (past the 8-packet layout-detection window) — it
    // counts as unparseable, the rest still parses.
    let mut bytes = clean_stream(10);
    let p = 9 * TS_PACKET_LEN;
    for b in &mut bytes[p..p + TS_PACKET_LEN] {
        *b = 0x00;
    }
    let report = validate_ts(&bytes);
    assert_eq!(report.packets, 12);
    assert_eq!(report.unparseable_packets, 1);
    assert!(!report.is_conformant());
}

#[test]
fn validates_192_byte_framing() {
    // Re-frame a clean stream as 192-byte source packets; the
    // validator must detect the layout and report identically.
    let plain = clean_stream(4);
    let mut framed = Vec::new();
    for pkt in plain.chunks(TS_PACKET_LEN) {
        framed.extend_from_slice(&[0, 0, 0, 0]);
        framed.extend_from_slice(pkt);
    }
    let report = validate_ts(&framed);
    assert_eq!(report.layout, Some(TsPacketLayout::PREFIXED_192));
    assert_eq!(report.packets, 6);
    assert!(report.is_conformant(), "{:?}", report.violations);
    assert_eq!(report.pcr[0].samples, 4);
}
