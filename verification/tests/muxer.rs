use oxideav_mpegts::build::{service_list_descriptor, teletext_descriptor};
use oxideav_mpegts::descriptor::{
    iter_descriptors, Descriptor, DescriptorBody, DescriptorIter, TeletextEntry,
};
use oxideav_mpegts::muxer::plan::FIRST_ES_PID;
use oxideav_mpegts::muxer::{
    build_es_descriptors, iso639_code, EventSpec, MpegTsMuxConfig, MpegTsMuxer, MuxPacket,
    MuxStream, NetworkSpec, ProgramSpec, SeamlessSpliceSpec, ServiceSpec, Slot, SpliceSpec,
};
use oxideav_mpegts::packet::{
    encode_clock_reference, iter_packets, TsPacket, TS_PACKET_LEN, TS_SYNC_BYTE,
};
use oxideav_mpegts::pes::{PesPacket, PesReassembler};
use oxideav_mpegts::psi::{
    iter_sections, EitDateTime, EitDuration, EventInformationTable, NetworkInformationTable,
    ProgramAssociationTable, ProgramMapTable, PsiSectionAssembler, RunningStatus,
    ServiceDescriptionTable, EIT_PID, NIT_PID, SDT_PID,
};
use oxideav_mpegts::validate::{validate_ts, MAX_PCR_INTERVAL_27MHZ};
use oxideav_mpegts::TsError;

fn stream_info(idx: u32, codec_id: &str, _is_video: bool) -> MuxStream {
    MuxStream {
        index: idx,
        codec_id: codec_id.to_string(),
        language: None,
    }
}

fn packet(stream_index: u32, data: Vec<u8>) -> MuxPacket {
    MuxPacket {
        stream_index,
        pts: None,
        dts: None,
        keyframe: false,
        data,
    }
}

trait Timed {
    fn with_pts(self, pts: i64) -> Self;
    fn with_dts(self, dts: i64) -> Self;
    fn with_keyframe(self, keyframe: bool) -> Self;
}

impl Timed for MuxPacket {
    fn with_pts(mut self, pts: i64) -> Self {
        self.pts = Some(pts);
        self
    }
    fn with_dts(mut self, dts: i64) -> Self {
        self.dts = Some(dts);
        self
    }
    fn with_keyframe(mut self, keyframe: bool) -> Self {
        self.keyframe = keyframe;
        self
    }
}

/// What a multiplexer wrote.
struct SharedSink(Vec<u8>);

impl SharedSink {
    fn new() -> Self {
        Self(Vec::new())
    }
    fn into_bytes(self) -> Vec<u8> {
        self.0
    }
}

/// Every descriptor of a loop.
fn all(mut it: DescriptorIter<'_>) -> Vec<Descriptor<'_>> {
    let mut v = Vec::new();
    while let Some(d) = it.next() {
        v.push(d.unwrap());
    }
    v
}

struct DemuxStream {
    pid: u16,
    codec: &'static str,
    language: Option<String>,
}

#[derive(Debug)]
struct Demuxed {
    pts: Option<i64>,
    dts: Option<i64>,
    keyframe: bool,
    data: Vec<u8>,
}

/// Reads one program back, with the parsers of the library.
struct Demux {
    programs: Vec<(u16, u16)>,
    streams: Vec<DemuxStream>,
    queue: std::collections::VecDeque<Demuxed>,
}

impl Demux {
    fn open(bytes: &[u8], program_number: u16) -> Demux {
        let pat = first_section_on(bytes, 0, ProgramAssociationTable::parse).expect("PAT");
        let programs: Vec<(u16, u16)> = pat.programs.clone();
        let pmt_pid = programs
            .iter()
            .find(|p| p.0 == program_number)
            .expect("program")
            .1;
        let pmt = first_section_on(bytes, pmt_pid, ProgramMapTable::parse).expect("PMT");
        let mut streams = Vec::new();
        for st in &pmt.streams {
            let mut language = None;
            for d in all(st.iter_descriptors()) {
                if let DescriptorBody::Iso639Language(l) = d.body {
                    language = Some(String::from_utf8(l[0].language.to_vec()).unwrap());
                }
            }
            streams.push(DemuxStream {
                pid: st.elementary_pid,
                codec: match st.stream_type {
                    0x1B => "h264",
                    0x24 => "hevc",
                    0x80 => "pcm_s16be",
                    0x81 => "ac3",
                    0x84 | 0x87 => "eac3",
                    _ => "other",
                },
                language,
            });
        }
        let mut joiners: Vec<PesReassembler> =
            streams.iter().map(|_| PesReassembler::new()).collect();
        let mut queue = std::collections::VecDeque::new();
        let mut take = |p: PesPacket| {
            queue.push_back(Demuxed {
                pts: p.pts_90k.map(|t| t as i64),
                dts: p.dts_90k.map(|t| t as i64),
                keyframe: p.random_access,
                data: p.payload,
            });
        };
        for chunk in bytes.chunks_exact(TS_PACKET_LEN) {
            let pkt = TsPacket::parse(chunk).unwrap();
            if let Some(i) = streams.iter().position(|s| s.pid == pkt.pid) {
                if let Some(p) = joiners[i].feed(&pkt).unwrap() {
                    take(p);
                }
            }
        }
        for j in &mut joiners {
            if let Some(p) = j.flush().unwrap() {
                take(p);
            }
        }
        Demux {
            programs,
            streams,
            queue,
        }
    }

    fn next_packet(&mut self) -> Option<Demuxed> {
        self.queue.pop_front()
    }
}

/// Build a tiny TS file via the muxer and round-trip it through
/// the demuxer in the same crate.
#[test]
fn mux_then_demux_round_trip_avc_plus_ac3() {
    let streams = vec![stream_info(0, "h264", true), stream_info(1, "ac3", false)];
    let mut sink = SharedSink::new();
    {
        let mut mx = MpegTsMuxer::new(&streams).expect("open");
        mx.write_header();
        let video_pkt = packet(0, vec![0xDE, 0xAD, 0xBE, 0xEF])
            .with_pts(12345);
        let audio_pkt =
            packet(1, vec![0xCA, 0xFE]).with_pts(22222);
        mx.write_packet(&video_pkt).unwrap();
        mx.write_packet(&audio_pkt).unwrap();
        mx.write_trailer().unwrap();
        sink.0 = mx.take_output();
    }
    let bytes = sink.into_bytes();
    assert!(bytes.len() % TS_PACKET_LEN == 0);

    let mut dmx = Demux::open(&bytes, 1);
    assert_eq!(dmx.streams.len(), 2);
    let codecs: Vec<&str> = dmx.streams.iter().map(|s| s.codec).collect();
    assert!(codecs.contains(&"h264"));
    assert!(codecs.contains(&"ac3"));
    let p1 = dmx.next_packet().expect("p1");
    let p2 = dmx.next_packet().expect("p2");
    let mut pts_set = vec![p1.pts.unwrap(), p2.pts.unwrap()];
    pts_set.sort();
    assert_eq!(pts_set, vec![12345, 22222]);
}

/// Two independent programs, each with its own PMT PID + PCR PID,
/// must round-trip through the demuxer's `programs()` enumeration and
/// be individually selectable with `open_program`.
#[test]
fn multi_program_round_trips_through_pat() {
    let streams = vec![
        stream_info(0, "h264", true),
        stream_info(1, "ac3", false),
        stream_info(2, "hevc", true),
        stream_info(3, "eac3", false),
    ];
    let config = MpegTsMuxConfig {
        transport_stream_id: 0x0042,
        original_network_id: 0x2024,
        programs: vec![
            ProgramSpec {
                program_number: 1,
                pmt_pid: 0x0100,
                pcr_pid: None,
                stream_indices: vec![0, 1],
                service: None,
                events: Vec::new(),
                es_descriptors: Vec::new(),
            },
            ProgramSpec {
                program_number: 2,
                pmt_pid: 0x0101,
                pcr_pid: None,
                stream_indices: vec![2, 3],
                service: None,
                events: Vec::new(),
                es_descriptors: Vec::new(),
            },
        ],
        network: None,
    };
    let mut sink = SharedSink::new();
    {
        let mut mx = MpegTsMuxer::with_config(&streams, &config).expect("open");
        mx.write_header();
        for k in 0..4i64 {
            mx.write_packet(
                &packet(k as u32, vec![k as u8; 6])
                    .with_pts(1000 + k * 10),
            )
            .unwrap();
        }
        mx.write_trailer().unwrap();
        sink.0 = mx.take_output();
    }
    let bytes = sink.into_bytes();

    // Enumerate the programs via the concrete demuxer.
    let dmx = Demux::open(&bytes, 1);
    let mut progs: Vec<(u16, u16)> = dmx.programs.clone();
    progs.sort();
    assert_eq!(progs, vec![(1, 0x0100), (2, 0x0101)]);

    // Program 2 selected explicitly must expose its hevc+eac3 streams.
    let dmx2 = Demux::open(&bytes, 2);
    let codecs: Vec<&str> = dmx2.streams.iter().map(|s| s.codec).collect();
    assert!(codecs.contains(&"hevc"), "codecs={codecs:?}");
    assert!(codecs.contains(&"eac3"), "codecs={codecs:?}");
}

/// A program carrying `ServiceSpec` metadata must emit an SDT on
/// PID 0x0011 that reassembles + parses back to the same service.
#[test]
fn sdt_service_round_trips_through_mux() {
    let streams = vec![stream_info(0, "h264", true), stream_info(1, "ac3", false)];
    let config = MpegTsMuxConfig {
        transport_stream_id: 0x0007,
        original_network_id: 0x1000,
        programs: vec![ProgramSpec {
            program_number: 0x0064,
            pmt_pid: 0x0100,
            pcr_pid: None,
            stream_indices: vec![0, 1],
            service: Some(ServiceSpec {
                service_type: 0x19,
                provider_name: b"OxideAV".to_vec(),
                service_name: b"Channel One".to_vec(),
            }),
            events: Vec::new(),
            es_descriptors: Vec::new(),
        }],
        network: None,
    };
    let mut sink = SharedSink::new();
    {
        let mut mx = MpegTsMuxer::with_config(&streams, &config).expect("open");
        mx.write_header();
        mx.write_packet(&packet(0, vec![1; 4]).with_pts(90))
            .unwrap();
        mx.write_trailer().unwrap();
        sink.0 = mx.take_output();
    }
    let bytes = sink.into_bytes();
    // Find the first SDT_PID packet with PUSI and parse its section.
    let mut found = None;
    for chunk in bytes.chunks_exact(TS_PACKET_LEN) {
        let pid = (((chunk[1] & 0x1F) as u16) << 8) | chunk[2] as u16;
        let pusi = chunk[1] & 0x40 != 0;
        if pid == SDT_PID && pusi {
            // afc = payload only (0b01) → payload from byte 4.
            let mut sections = iter_sections(&chunk[4..]);
            while let Some(sec) = sections.next() {
                if let Ok(sdt) = ServiceDescriptionTable::parse(sec) {
                    found = Some(sdt);
                    break;
                }
            }
        }
        if found.is_some() {
            break;
        }
    }
    let sdt = found.expect("SDT section on PID 0x0011");
    assert_eq!(sdt.transport_stream_id, 0x0007);
    assert_eq!(sdt.original_network_id, 0x1000);
    assert_eq!(sdt.services.len(), 1);
    let svc = &sdt.services[0];
    assert_eq!(svc.service_id, 0x0064);
    match svc.iter_descriptors().next().unwrap().unwrap().body {
        DescriptorBody::Service(s) => {
            assert_eq!(s.service_type, 0x19);
            assert_eq!(s.service_provider_name, b"OxideAV");
            assert_eq!(s.service_name, b"Channel One");
        }
        other => panic!("expected Service descriptor, got {other:?}"),
    }
}

/// Helper: find + parse the first section on `pid` with a matching
/// table_id via `parse`.
fn first_section_on<T>(
    bytes: &[u8],
    pid: u16,
    parse: impl Fn(&[u8]) -> Result<T, TsError>,
) -> Option<T> {
    for chunk in bytes.chunks_exact(TS_PACKET_LEN) {
        let p = (((chunk[1] & 0x1F) as u16) << 8) | chunk[2] as u16;
        let pusi = chunk[1] & 0x40 != 0;
        if p == pid && pusi {
            let mut sections = iter_sections(&chunk[4..]);
            while let Some(sec) = sections.next() {
                if let Ok(parsed) = parse(sec) {
                    return Some(parsed);
                }
            }
        }
    }
    None
}

/// A NetworkSpec makes the muxer emit a NIT on PID 0x0010 that
/// reassembles + parses back to the same network + TS entry.
#[test]
fn nit_round_trips_through_mux() {
    let streams = vec![stream_info(0, "h264", true)];
    let config = MpegTsMuxConfig {
        transport_stream_id: 0x0007,
        original_network_id: 0x2024,
        programs: vec![ProgramSpec {
            program_number: 1,
            pmt_pid: 0x0100,
            pcr_pid: None,
            stream_indices: vec![0],
            service: None,
            events: Vec::new(),
            es_descriptors: Vec::new(),
        }],
        network: Some(NetworkSpec {
            network_id: 0x1000,
            network_name: b"OxideNet".to_vec(),
            network_descriptors: Vec::new(),
            transport_descriptors: service_list_descriptor(&[(1, 0x01)]),
        }),
    };
    let mut sink = SharedSink::new();
    {
        let mut mx = MpegTsMuxer::with_config(&streams, &config).expect("open");
        mx.write_header();
        mx.write_packet(&packet(0, vec![1; 4]).with_pts(10))
            .unwrap();
        mx.write_trailer().unwrap();
        sink.0 = mx.take_output();
    }
    let bytes = sink.into_bytes();
    let nit = first_section_on(&bytes, NIT_PID, NetworkInformationTable::parse)
        .expect("NIT on PID 0x0010");
    assert_eq!(nit.network_id, 0x1000);
    assert_eq!(nit.transport_streams.len(), 1);
    assert_eq!(nit.transport_streams[0].transport_stream_id, 0x0007);
    assert_eq!(nit.transport_streams[0].original_network_id, 0x2024);
    match nit.iter_descriptors().next().unwrap().unwrap().body {
        DescriptorBody::NetworkName(n) => {
            assert_eq!(n.network_name, b"OxideNet")
        }
        other => panic!("{other:?}"),
    }
}

/// An EventSpec makes the muxer emit an EIT present/following section
/// on PID 0x0012 that reassembles + parses back to the same event,
/// including its short_event_descriptor.
#[test]
fn eit_pf_round_trips_through_mux() {
    let streams = vec![stream_info(0, "h264", true)];
    let ev = EventSpec {
        event_id: 0x0001,
        start_time: Some(EitDateTime {
            year: 2024,
            month: 6,
            day: 15,
            hour: 20,
            minute: 0,
            second: 0,
            mjd: 0,
        }),
        duration: EitDuration {
            hours: 0,
            minutes: 30,
            seconds: 0,
        },
        running_status: RunningStatus::Running,
        language: *b"eng",
        event_name: b"News".to_vec(),
        text: b"Evening bulletin".to_vec(),
    };
    let config = MpegTsMuxConfig {
        transport_stream_id: 0x0007,
        original_network_id: 0x2024,
        programs: vec![ProgramSpec {
            program_number: 0x0064,
            pmt_pid: 0x0100,
            pcr_pid: None,
            stream_indices: vec![0],
            service: None,
            events: vec![ev],
            es_descriptors: Vec::new(),
        }],
        network: None,
    };
    let mut sink = SharedSink::new();
    {
        let mut mx = MpegTsMuxer::with_config(&streams, &config).expect("open");
        mx.write_header();
        mx.write_packet(&packet(0, vec![1; 4]).with_pts(10))
            .unwrap();
        mx.write_trailer().unwrap();
        sink.0 = mx.take_output();
    }
    let bytes = sink.into_bytes();
    let eit = first_section_on(&bytes, EIT_PID, EventInformationTable::parse)
        .expect("EIT on PID 0x0012");
    assert_eq!(eit.service_id, 0x0064);
    assert!(!eit.schedule);
    assert_eq!(eit.events.len(), 1);
    let e = &eit.events[0];
    assert_eq!(e.event_id, 0x0001);
    let st = e.start_time.unwrap();
    assert_eq!((st.year, st.month, st.day), (2024, 6, 15));
    assert_eq!(e.duration.as_seconds(), 1800);
    match e.iter_descriptors().next().unwrap().unwrap().body {
        DescriptorBody::ShortEvent(s) => {
            assert_eq!(s.event_name, b"News");
            assert_eq!(s.text, b"Evening bulletin");
        }
        other => panic!("{other:?}"),
    }
}

/// End-to-end harness: a two-program TS carrying SDT + NIT + EIT +
/// per-stream descriptors and PES with distinct PTS/DTS must demux
/// back with every table, descriptor, and timestamp intact.
#[test]
fn full_multiprogram_si_round_trip_harness() {

    let streams = vec![
        stream_info(0, "h264", true),
        stream_info(1, "ac3", false),
        stream_info(2, "hevc", true),
    ];
    let config = MpegTsMuxConfig {
        transport_stream_id: 0x0100,
        original_network_id: 0x2024,
        programs: vec![
            ProgramSpec {
                program_number: 1,
                pmt_pid: 0x1000,
                pcr_pid: None,
                stream_indices: vec![0, 1],
                service: Some(ServiceSpec {
                    service_type: 0x19,
                    provider_name: b"OxideAV".to_vec(),
                    service_name: b"Prog One".to_vec(),
                }),
                events: vec![EventSpec {
                    event_id: 0x0011,
                    start_time: Some(EitDateTime {
                        year: 2024,
                        month: 6,
                        day: 15,
                        hour: 20,
                        minute: 0,
                        second: 0,
                        mjd: 0,
                    }),
                    duration: EitDuration {
                        hours: 1,
                        minutes: 0,
                        seconds: 0,
                    },
                    running_status: RunningStatus::Running,
                    language: *b"eng",
                    event_name: b"Movie".to_vec(),
                    text: b"Feature film".to_vec(),
                }],
                es_descriptors: Vec::new(),
            },
            ProgramSpec {
                program_number: 2,
                pmt_pid: 0x1001,
                pcr_pid: None,
                stream_indices: vec![2],
                service: Some(ServiceSpec {
                    service_type: 0x1F,
                    provider_name: b"OxideAV".to_vec(),
                    service_name: b"Prog Two".to_vec(),
                }),
                events: Vec::new(),
                es_descriptors: Vec::new(),
            },
        ],
        network: Some(NetworkSpec {
            network_id: 0x3000,
            network_name: b"OxideNet".to_vec(),
            network_descriptors: Vec::new(),
            transport_descriptors: service_list_descriptor(&[
                (1, 0x19),
                (2, 0x1F),
            ]),
        }),
    };

    let mut sink = SharedSink::new();
    {
        let mut mx = MpegTsMuxer::with_config(&streams, &config).expect("open");
        mx.set_psi_repetition_interval(None);
        mx.write_header();
        // Video packet on program 1 with distinct PTS/DTS.
        mx.write_packet(
            &packet(0, vec![0xAA; 8])
                .with_pts(12_000)
                .with_dts(9_000),
        )
        .unwrap();
        mx.write_packet(
            &packet(1, vec![0xBB; 6]).with_pts(12_500),
        )
        .unwrap();
        // Video on program 2.
        mx.write_packet(
            &packet(2, vec![0xCC; 8]).with_pts(13_000),
        )
        .unwrap();
        mx.write_trailer().unwrap();
        sink.0 = mx.take_output();
    }
    let bytes = sink.into_bytes();
    assert_eq!(bytes.len() % TS_PACKET_LEN, 0);

    // --- PAT enumerates both programs. ---
    let dmx = Demux::open(&bytes, 1);
    let mut progs: Vec<(u16, u16)> = dmx.programs.clone();
    progs.sort();
    assert_eq!(progs, vec![(1, 0x1000), (2, 0x1001)]);

    // --- Program 1 PES timing: video PTS/DTS + audio PTS. ---
    let mut dmx1 = Demux::open(&bytes, 1);
    let mut video_seen = false;
    let mut audio_seen = false;
    while let Some(p) = dmx1.next_packet() {
        match p.pts {
            Some(12_000) => {
                assert_eq!(p.dts, Some(9_000), "video DTS must round-trip");
                video_seen = true;
            }
            Some(12_500) => audio_seen = true,
            _ => {}
        }
    }
    assert!(video_seen && audio_seen, "prog-1 PES timing lost");

    // --- SDT names both services. ---
    let sdt =
        first_section_on(&bytes, SDT_PID, ServiceDescriptionTable::parse).expect("SDT present");
    let mut names: Vec<Vec<u8>> = sdt
        .services
        .iter()
        .filter_map(|s| {
            all(s.iter_descriptors()).iter().find_map(|d| match &d.body {
                DescriptorBody::Service(sv) => Some(sv.service_name.to_vec()),
                _ => None,
            })
        })
        .collect();
    names.sort();
    assert_eq!(names, vec![b"Prog One".to_vec(), b"Prog Two".to_vec()]);

    // --- NIT names the network + lists the TS. ---
    let nit =
        first_section_on(&bytes, NIT_PID, NetworkInformationTable::parse).expect("NIT present");
    assert_eq!(nit.network_id, 0x3000);
    assert_eq!(nit.transport_streams.len(), 1);
    assert_eq!(nit.transport_streams[0].transport_stream_id, 0x0100);

    // --- EIT carries program 1's event. ---
    let eit =
        first_section_on(&bytes, EIT_PID, EventInformationTable::parse).expect("EIT present");
    assert_eq!(eit.service_id, 1);
    assert_eq!(eit.events.len(), 1);
    assert_eq!(eit.events[0].duration.as_seconds(), 3600);
    let ev_name = all(eit.events[0].iter_descriptors()).iter().find_map(|d| match &d.body {
            DescriptorBody::ShortEvent(s) => Some(s.event_name.to_vec()),
            _ => None,
        })
        .unwrap();
    assert_eq!(ev_name, b"Movie");
}

/// With PSI repetition enabled, a long PTS run re-emits the PAT
/// mid-stream (more than the two header/trailer copies). With it
/// disabled, exactly two PAT sections appear.
#[test]
fn psi_repetition_reemits_pat_mid_stream() {
    let streams = vec![stream_info(0, "h264", true)];
    let count_pat = |bytes: &[u8]| -> usize {
        bytes
            .chunks_exact(TS_PACKET_LEN)
            .filter(|c| {
                let pid = (((c[1] & 0x1F) as u16) << 8) | c[2] as u16;
                let pusi = c[1] & 0x40 != 0;
                pid == 0x0000 && pusi
            })
            .count()
    };
    // Repetition enabled (default 18000): interval crossed each step.
    let mut sink = SharedSink::new();
    {
        let mut mx = MpegTsMuxer::new(&streams).expect("open");
        mx.write_header();
        for k in 0..8i64 {
            mx.write_packet(
                &packet(0, vec![0; 8]).with_pts(k * 40_000),
            )
            .unwrap();
        }
        mx.write_trailer().unwrap();
        sink.0 = mx.take_output();
    }
    let with_rep = count_pat(&sink.into_bytes());
    assert!(
        with_rep > 2,
        "expected mid-stream PAT repeats, got {with_rep}"
    );

    // Repetition disabled: only header + trailer PAT.
    let mut sink2 = SharedSink::new();
    {
        let mut mx = MpegTsMuxer::new(&streams).expect("open");
        mx.set_psi_repetition_interval(None);
        mx.write_header();
        for k in 0..8i64 {
            mx.write_packet(
                &packet(0, vec![0; 8]).with_pts(k * 40_000),
            )
            .unwrap();
        }
        mx.write_trailer().unwrap();
        sink2.0 = mx.take_output();
    }
    assert_eq!(count_pat(&sink2.into_bytes()), 2);
}

/// A stream_index referenced by no program (or by two) is rejected.
#[test]
fn with_config_rejects_bad_stream_mapping() {
    let streams = vec![stream_info(0, "h264", true)];
    // Unknown stream_index 9.
    let bad = MpegTsMuxConfig {
        transport_stream_id: 1,
        original_network_id: 1,
        programs: vec![ProgramSpec {
            program_number: 1,
            pmt_pid: 0x0100,
            pcr_pid: None,
            stream_indices: vec![9],
            service: None,
            events: Vec::new(),
            es_descriptors: Vec::new(),
        }],
        network: None,
    };
    assert!(MpegTsMuxer::with_config(&streams, &bad).is_err());
}

/// A PSI section longer than one packet's 183-byte first-packet
/// window must split across multiple TS packets and reassemble
/// cleanly through the in-crate `PsiSectionAssembler`.
#[test]
fn multi_packet_psi_section_reassembles() {
    // Build a 400-byte synthetic section (well past one packet).
    let mut section = vec![0u8; 400];
    for (i, b) in section.iter_mut().enumerate() {
        *b = (i & 0xFF) as u8;
    }
    // Mux it out under a fresh muxer with one dummy track.
    let s = stream_info(0, "h264", true);
    let mut sink = SharedSink::new();
    {
        let mut mx = MpegTsMuxer::new(&[s]).expect("open");
        mx.write_psi_packet(0x0100, Slot::Pmt(0), &section);
        sink.0 = mx.take_output();
    }
    let bytes = sink.into_bytes();
    // Should have spanned more than one TS packet.
    assert!(bytes.len() / TS_PACKET_LEN >= 3, "expected >=3 packets");
    assert_eq!(bytes.len() % TS_PACKET_LEN, 0);

    // Reassemble through the demuxer-side assembler.
    let mut joint = PsiSectionAssembler::new();
    let mut recovered: Option<Vec<u8>> = None;
    for chunk in bytes.chunks_exact(TS_PACKET_LEN) {
        let pusi = chunk[1] & 0x40 != 0;
        let cc = chunk[3] & 0x0F;
        // afc = payload only (0b01) → payload starts at byte 4.
        let payload = &chunk[4..];
        for sec in joint.feed(payload, pusi, cc).expect("feed") {
            recovered = Some(sec);
        }
    }
    // The assembler validates section_length + CRC, but our
    // synthetic blob is not a real section, so it surfaces the
    // raw assembled bytes only if it parses a length. Instead we
    // assert the byte split was lossless by re-concatenating the
    // payloads ourselves.
    let mut flat = Vec::new();
    let mut first = true;
    for chunk in bytes.chunks_exact(TS_PACKET_LEN) {
        let start = if first { 5 } else { 4 };
        flat.extend_from_slice(&chunk[start..]);
        first = false;
    }
    assert_eq!(&flat[..section.len()], &section[..]);
    let _ = recovered;
}

/// An audio track tagged with a language must surface that language
/// in the muxed PMT and round-trip back through the demuxer's
/// ISO_639_language_descriptor reader.
#[test]
fn language_descriptor_round_trips_through_pmt() {
    let mut audio = stream_info(1, "ac3", false);
    audio.language = Some("jpn".to_string());
    let streams = vec![stream_info(0, "h264", true), audio];
    let mut sink = SharedSink::new();
    {
        let mut mx = MpegTsMuxer::new(&streams).expect("open");
        mx.write_header();
        mx.write_packet(&packet(0, vec![1, 2, 3]).with_pts(100))
            .unwrap();
        mx.write_packet(&packet(1, vec![4, 5]).with_pts(200))
            .unwrap();
        mx.write_trailer().unwrap();
        sink.0 = mx.take_output();
    }
    let bytes = sink.into_bytes();
    let dmx = Demux::open(&bytes, 1);
    let langs: Vec<Option<String>> = dmx.streams.iter().map(|s| s.language.clone()).collect();
    // The ac3 track must carry "jpn"; the video track must not.
    assert!(langs.contains(&Some("jpn".to_string())), "langs={langs:?}");
}

/// A video track's language tag is dropped — video streams carry a
/// stream_identifier_descriptor but no ISO_639_language_descriptor in
/// the PMT.
#[test]
fn video_track_emits_no_language_descriptor() {
    let mut video = stream_info(0, "h264", true);
    video.language = Some("eng".to_string());
    let mx = MpegTsMuxer::new(&[video]).expect("open");
    assert!(mx.plan().tracks[0].language.is_none());
    let es = build_es_descriptors(&mx.plan().tracks[0], &[]);
    let tags: Vec<u8> = all(iter_descriptors(&es)).iter().map(|d| d.tag).collect();
    assert!(
        tags.contains(&0x52),
        "expected stream_identifier, tags={tags:?}"
    );
    assert!(
        !tags.contains(&0x0A),
        "video must not carry ISO-639, tags={tags:?}"
    );
}

/// The auto stream_identifier_descriptor and a caller-injected DVB
/// component descriptor (teletext) both surface in the demuxed PMT.
#[test]
fn es_descriptors_component_tag_and_injected_round_trip() {
    let streams = vec![stream_info(0, "h264", true), stream_info(1, "ac3", false)];
    let teletext = teletext_descriptor(&[TeletextEntry {
        language_code: *b"eng",
        teletext_type: 0x02,
        teletext_magazine_number: 0x01,
        teletext_page_number: 0x88,
    }]);
    let config = MpegTsMuxConfig {
        transport_stream_id: 1,
        original_network_id: 1,
        programs: vec![ProgramSpec {
            program_number: 1,
            pmt_pid: 0x0100,
            pcr_pid: None,
            stream_indices: vec![0, 1],
            service: None,
            events: Vec::new(),
            es_descriptors: vec![(1, teletext)],
        }],
        network: None,
    };
    let mut sink = SharedSink::new();
    {
        let mut mx = MpegTsMuxer::with_config(&streams, &config).expect("open");
        mx.write_header();
        mx.write_packet(&packet(0, vec![1; 4]).with_pts(10))
            .unwrap();
        mx.write_trailer().unwrap();
        sink.0 = mx.take_output();
    }
    let bytes = sink.into_bytes();
    // Reassemble the PMT from PID 0x0100.
    let mut pmt = None;
    for chunk in bytes.chunks_exact(TS_PACKET_LEN) {
        let pid = (((chunk[1] & 0x1F) as u16) << 8) | chunk[2] as u16;
        let pusi = chunk[1] & 0x40 != 0;
        if pid == 0x0100 && pusi {
            let mut sections = iter_sections(&chunk[4..]);
            while let Some(sec) = sections.next() {
                if let Ok(p) = ProgramMapTable::parse(sec) {
                    pmt = Some(p);
                    break;
                }
            }
        }
        if pmt.is_some() {
            break;
        }
    }
    let pmt = pmt.expect("PMT on 0x0100");
    // Every stream carries a distinct stream_identifier component_tag.
    let mut tags = Vec::new();
    for st in &pmt.streams {
        for d in all(st.iter_descriptors()) {
            if let DescriptorBody::StreamIdentifier(s) = d.body {
                tags.push(s.component_tag);
            }
        }
    }
    tags.sort();
    assert_eq!(tags, vec![1, 2]);
    // The AC-3 stream (index 1) carries the injected teletext descriptor.
    let ac3 = pmt.streams.iter().find(|s| s.stream_type == 0x81).unwrap();
    let has_teletext = all(ac3.iter_descriptors()).iter().any(|d| matches!(d.body, DescriptorBody::Teletext(_)));
    assert!(has_teletext, "expected injected teletext descriptor");
}

/// A keyframe-flagged packet must surface a
/// `random_access_indicator` on the wire (first TS packet of its
/// PES) and read back as a keyframe through the reader,
/// with the PCR-PID constraint that the indicator
/// only rides packets carrying the PCR fields.
#[test]
fn keyframe_round_trips_as_random_access_indicator() {
    let streams = vec![stream_info(0, "h264", true), stream_info(1, "ac3", false)];
    let mut sink = SharedSink::new();
    {
        let mut mx = MpegTsMuxer::new(&streams).expect("open");
        mx.write_header();
        // Video keyframe (PCR PID; PES start carries PCR → RAI
        // legal), long enough to span several TS packets so the
        // indicator must land on the FIRST only.
        let kf = packet(0, vec![0xAB; 600])
            .with_pts(10_000)
            .with_keyframe(true);
        // Non-keyframe video packet: no RAI.
        let mid = packet(0, vec![0xCD; 600]).with_pts(13_600);
        // Audio keyframe on a non-PCR PID: RAI without PCR.
        let akf = packet(1, vec![0xEF; 100])
            .with_pts(11_000)
            .with_keyframe(true);
        mx.write_packet(&kf).unwrap();
        mx.write_packet(&akf).unwrap();
        mx.write_packet(&mid).unwrap();
        mx.write_trailer().unwrap();
        sink.0 = mx.take_output();
    }
    let bytes = sink.into_bytes();

    // Wire check: count RAI packets per PID.
    let mut rai_by_pid: std::collections::HashMap<u16, usize> =
        std::collections::HashMap::new();
    let mut rai_with_pcr = 0usize;
    let mut packets = iter_packets(&bytes);
    while let Some(pkt) = packets.next() {
        let pkt = pkt.expect("well-formed muxer output");
        if let Some(af) = &pkt.adaptation_field {
            if af.random_access_indicator {
                *rai_by_pid.entry(pkt.pid).or_default() += 1;
                assert!(
                    pkt.payload_unit_start,
                    "muxer sets RAI only on PES-start packets"
                );
                if af.pcr_flag {
                    rai_with_pcr += 1;
                }
            }
        }
    }
    assert_eq!(
        rai_by_pid.values().sum::<usize>(),
        2,
        "exactly the two keyframes are flagged: {rai_by_pid:?}"
    );
    assert_eq!(rai_by_pid.len(), 2, "one video + one audio PID");
    assert_eq!(
        rai_with_pcr, 1,
        "the video (PCR PID) RAI packet also carries the PCR"
    );

    // Demux check: keyframe flags survive the round trip.
    let mut dmx = Demux::open(&bytes, 1);
    let mut flags_by_pts = std::collections::HashMap::new();
    while let Some(p) = dmx.next_packet() {
        flags_by_pts.insert(p.pts.unwrap(), p.keyframe);
    }
    assert_eq!(flags_by_pts.get(&10_000), Some(&true));
    assert_eq!(flags_by_pts.get(&11_000), Some(&true));
    assert_eq!(flags_by_pts.get(&13_600), Some(&false));
}

/// Muxer output must pass the crate's own
/// conformance validator with zero violations.
#[test]
fn muxer_output_is_conformant() {
    let streams = vec![stream_info(0, "h264", true), stream_info(1, "ac3", false)];
    let mut sink = SharedSink::new();
    {
        let mut mx = MpegTsMuxer::new(&streams).expect("open");
        mx.write_header();
        for i in 0..50i64 {
            let pts = 5_000 + i * 3_000;
            let v = packet(0, vec![(i & 0xFF) as u8; 400])
                .with_pts(pts)
                .with_keyframe(i % 10 == 0);
            mx.write_packet(&v).unwrap();
            let a = packet(1, vec![0x11; 80]).with_pts(pts + 700);
            mx.write_packet(&a).unwrap();
        }
        mx.write_trailer().unwrap();
        sink.0 = mx.take_output();
    }
    let bytes = sink.into_bytes();
    let report = validate_ts(&bytes);
    assert!(
        report.is_conformant(),
        "muxer output violates the spec: {:?}",
        report.violations
    );
    assert_eq!(report.programs, vec![(1, 0x0100)]);
    assert_eq!(report.pcr.len(), 1);
    let pcr = &report.pcr[0];
    assert!(pcr.samples >= 50, "PCR on every video PES start");
    // Every inter-PCR gap within 0,1 s.
    assert!(pcr.max_interval_27mhz.unwrap() <= MAX_PCR_INTERVAL_27MHZ);
    assert!(pcr.estimated_rate_bps.unwrap() > 0);
    // PSI repetition produced multiple PATs.
    assert!(report.pat_sections >= 2);
    assert!(report.pat_max_gap_packets.is_some());
}

/// Re-frame a plain 188-byte TS byte stream into 192-byte
/// (4-byte-prefixed) source packets.
fn wrap_192(bytes: &[u8]) -> Vec<u8> {
    let mut out = Vec::with_capacity(bytes.len() / 188 * 192);
    for (i, pkt) in bytes.chunks(TS_PACKET_LEN).enumerate() {
        out.extend_from_slice(&(i as u32).to_be_bytes()); // header word
        out.extend_from_slice(pkt);
    }
    out
}

/// Re-frame a plain 188-byte TS byte stream into 204-byte packets
/// (16-byte trailer appended to each packet).
fn wrap_204(bytes: &[u8]) -> Vec<u8> {
    let mut out = Vec::with_capacity(bytes.len() / 188 * 204);
    for pkt in bytes.chunks(TS_PACKET_LEN) {
        out.extend_from_slice(pkt);
        out.extend_from_slice(&[0xEC; 16]);
    }
    out
}

/// The clock-reference encoder the mux path relies on must
/// round-trip through the demuxer-side adaptation field PCR
/// decode. Pin the exact bit layout.
#[test]
fn encode_pcr_bit_layout() {
    // base = 0x1_0000_0001 (33 bits, low bit set), ext = 0x155.
    let b = encode_clock_reference(0x1_0000_0001, 0x155);
    // high32 = base >> 1 = 0x8000_0000.
    assert_eq!(&b[0..4], &0x8000_0000u32.to_be_bytes());
    // byte4 = (low_bit<<7) | 0b0111_1110 | (ext>>8 & 1)
    //       = (1<<7) | 0x7E | (1) = 0xFF.
    assert_eq!(b[4], 0xFF);
    assert_eq!(b[5], 0x55);
    // Parse it back through the packet AF decoder.
    let mut pkt = [0xFFu8; TS_PACKET_LEN];
    pkt[0] = TS_SYNC_BYTE;
    pkt[1] = 0x01;
    pkt[2] = 0x00;
    pkt[3] = 0b0010_0000; // AF only
    pkt[4] = 183;
    pkt[5] = 0b0001_0000; // PCR_flag
    pkt[6..12].copy_from_slice(&b);
    let parsed = TsPacket::parse(&pkt).expect("parse");
    let af = parsed.adaptation_field.expect("af");
    assert_eq!(af.pcr_base, Some(0x1_0000_0001));
    assert_eq!(af.pcr_extension, Some(0x155));
}

/// When two PES packets on the same PCR PID are spaced far apart in
/// PTS, with intervening audio packets, the muxer must inject extra
/// standalone PCR-only packets to keep the inter-PCR interval inside
/// the 0,1 s bound. Count the PCR-bearing packets on the PCR PID.
#[test]
fn periodic_pcr_injected_for_large_pts_gap() {
    let streams = vec![stream_info(0, "h264", true), stream_info(1, "ac3", false)];
    let mut sink = SharedSink::new();
    let pcr_pid;
    {
        let mut mx = MpegTsMuxer::new(&streams).expect("open");
        pcr_pid = mx.plan().programs[0].pcr_pid;
        mx.write_header();
        // Video at PTS 0, then a run of audio packets advancing PTS
        // well past several PCR intervals, then video again.
        mx.write_packet(&packet(0, vec![0; 10]).with_pts(0))
            .unwrap();
        for k in 1..=10i64 {
            let pts = k * 4000; // > PCR_MAX_INTERVAL_90K each step
            mx.write_packet(
                &packet(1, vec![0; 8]).with_pts(pts),
            )
            .unwrap();
        }
        mx.write_packet(&packet(0, vec![0; 10]).with_pts(44000))
            .unwrap();
        mx.write_trailer().unwrap();
        sink.0 = mx.take_output();
    }
    let bytes = sink.into_bytes();
    // Count packets on the PCR PID that carry a PCR_flag.
    let mut pcr_count = 0;
    for chunk in bytes.chunks_exact(TS_PACKET_LEN) {
        let pid = (((chunk[1] & 0x1F) as u16) << 8) | chunk[2] as u16;
        if pid != pcr_pid {
            continue;
        }
        let afc = (chunk[3] >> 4) & 0b11;
        if afc & 0b10 != 0 {
            let af_len = chunk[4] as usize;
            if af_len > 0 && (chunk[5] & 0b0001_0000) != 0 {
                pcr_count += 1;
            }
        }
    }
    // 1 (initial video PES) + many standalone audio-driven PCRs +
    // the final video PES = comfortably more than 2.
    assert!(pcr_count >= 5, "only {pcr_count} PCRs emitted");
}

#[test]
fn iso639_code_pads_and_truncates() {
    assert_eq!(iso639_code("en"), [b'e', b'n', b' ']);
    assert_eq!(iso639_code("jpn"), [b'j', b'p', b'n']);
    assert_eq!(iso639_code("english"), [b'e', b'n', b'g']);
    assert_eq!(iso639_code(""), [b' ', b' ', b' ']);
}

#[test]
fn open_rejects_empty_stream_list() {
    let r = MpegTsMuxer::new(&[]);
    assert!(r.is_err());
}

#[test]
fn open_rejects_unknown_codec_id() {
    let s = stream_info(0, "this-is-not-a-known-codec", true);
    let r = MpegTsMuxer::new(&[s]);
    assert!(r.is_err());
}

/// A bounded-length (non-video) frame larger than the 16-bit
/// `PES_packet_length` budget must split across several PES
/// packets — first with the timestamps, continuations without —
/// and demux back as payloads that concatenate to the original.
#[test]
fn oversize_bounded_frame_splits_across_pes_packets() {
    let payload: Vec<u8> = (0..200_000u32).map(|i| (i % 251) as u8).collect();
    let streams = vec![stream_info(0, "pcm_s16be", false)];
    let mut sink = SharedSink::new();
    {
        let mut mx = MpegTsMuxer::new(&streams).expect("open");
        mx.write_header();
        mx.write_packet(
            &packet(0, payload.clone()).with_pts(30_000),
        )
        .unwrap();
        mx.write_trailer().unwrap();
        sink.0 = mx.take_output();
    }
    let bytes = sink.into_bytes();

    // Every PES on the wire must respect the 16-bit length bound:
    // count the PUSI starts on the ES PID.
    let pusi_count = bytes
        .chunks_exact(TS_PACKET_LEN)
        .filter(|c| {
            let pkt = TsPacket::parse(c).unwrap();
            pkt.pid == FIRST_ES_PID && pkt.payload_unit_start
        })
        .count();
    // 200 000 bytes over (65 535 − 3 − 5) + 2 × (65 535 − 3) + tail.
    assert_eq!(pusi_count, 4);

    let report = validate_ts(&bytes);
    assert!(report.is_conformant(), "{report:?}");

    let mut dmx = Demux::open(&bytes, 1);
    let mut parts = Vec::new();
    while let Some(p) = dmx.next_packet() {
        parts.push(p);
    }
    assert_eq!(parts.len(), 4);
    assert_eq!(parts[0].pts, Some(30_000));
    assert!(parts[1..].iter().all(|p| p.pts.is_none()));
    let concat: Vec<u8> = parts.iter().flat_map(|p| p.data.clone()).collect();
    assert_eq!(concat, payload);
}

/// A payload that exactly fills one bounded PES stays a single
/// envelope.
#[test]
fn bounded_frame_at_length_budget_stays_single_pes() {
    // 65 535 − 3 (post-length header) − 5 (PTS) payload bytes.
    let payload = vec![0x5A; 65_527];
    let streams = vec![stream_info(0, "ac3", false)];
    let mut sink = SharedSink::new();
    {
        let mut mx = MpegTsMuxer::new(&streams).expect("open");
        mx.write_header();
        mx.write_packet(
            &packet(0, payload.clone()).with_pts(9_000),
        )
        .unwrap();
        mx.write_trailer().unwrap();
        sink.0 = mx.take_output();
    }
    let bytes = sink.into_bytes();
    let pusi_count = bytes
        .chunks_exact(TS_PACKET_LEN)
        .filter(|c| {
            let pkt = TsPacket::parse(c).unwrap();
            pkt.pid == FIRST_ES_PID && pkt.payload_unit_start
        })
        .count();
    assert_eq!(pusi_count, 1);
    let mut dmx = Demux::open(&bytes, 1);
    let p = dmx.next_packet().expect("packet");
    assert_eq!(p.data, payload);
    assert_eq!(p.pts, Some(9_000));
}

/// A splice armed on a frame that splits across PES envelopes must
/// annotate only the LAST envelope — the splicing point sits after
/// the frame's final byte.
#[test]
fn splice_on_split_frame_annotates_last_envelope() {
    let payload = vec![0x77u8; 100_000];
    let streams = vec![stream_info(0, "pcm_s16be", false)];
    let mut sink = SharedSink::new();
    {
        let mut mx = MpegTsMuxer::new(&streams).expect("open");
        mx.write_header();
        mx.signal_splice_after(0, SpliceSpec::default()).unwrap();
        mx.write_packet(&packet(0, payload).with_pts(3_000))
            .unwrap();
        mx.write_trailer().unwrap();
        sink.0 = mx.take_output();
    }
    let bytes = sink.into_bytes();

    // Walk the ES PID: record the index of the last PUSI packet
    // and every countdown annotation.
    let mut last_pusi_at = None;
    let mut annotated = Vec::new();
    let mut es_index = 0usize;
    for chunk in bytes.chunks_exact(TS_PACKET_LEN) {
        let pkt = TsPacket::parse(chunk).unwrap();
        if pkt.pid != FIRST_ES_PID {
            continue;
        }
        if pkt.payload_unit_start {
            last_pusi_at = Some(es_index);
        }
        if let Some(c) = pkt
            .adaptation_field
            .as_ref()
            .and_then(|af| af.splice_countdown)
        {
            annotated.push((es_index, c));
        }
        es_index += 1;
    }
    let last_pusi_at = last_pusi_at.expect("PES starts");
    assert!(!annotated.is_empty());
    // Every annotation sits at or after the last PES start, and
    // the run ends at zero on the final payload packet.
    assert!(annotated.iter().all(|&(i, _)| i >= last_pusi_at));
    assert_eq!(annotated.last().unwrap().1, 0);
    assert_eq!(annotated.last().unwrap().0, es_index - 1);
    assert!(validate_ts(&bytes).is_conformant());
}

/// A standalone PCR-only packet must not advance the continuity
/// counter (CC does not increment when the AF control is
/// `'10'`), so the payload CC chain around it stays unbroken.
#[test]
fn pcr_only_packets_preserve_cc_chain() {
    let streams = vec![stream_info(0, "h264", true), stream_info(1, "ac3", false)];
    let mut sink = SharedSink::new();
    {
        let mut mx = MpegTsMuxer::new(&streams).expect("open");
        mx.write_header();
        // Audio-only PTS progression forces standalone PCR
        // injection on the (video) PCR PID between audio PES.
        mx.write_packet(&packet(0, vec![1; 32]).with_pts(9_000))
            .unwrap();
        for k in 0..40i64 {
            mx.write_packet(
                &packet(1, vec![2; 64])
                    .with_pts(9_000 + k * 2_000),
            )
            .unwrap();
        }
        mx.write_trailer().unwrap();
        sink.0 = mx.take_output();
    }
    let bytes = sink.into_bytes();
    // Standalone PCR packets exist…
    let pcr_only = bytes
        .chunks_exact(TS_PACKET_LEN)
        .filter(|c| {
            let pkt = TsPacket::parse(c).unwrap();
            pkt.pid == FIRST_ES_PID
                && pkt.payload.is_empty()
                && pkt
                    .adaptation_field
                    .as_ref()
                    .is_some_and(|af| af.pcr_base.is_some())
        })
        .count();
    assert!(pcr_only >= 5, "want standalone PCRs, got {pcr_only}");
    // …and the CC chain shows zero errors.
    let report = validate_ts(&bytes);
    assert_eq!(report.violations.continuity_errors, 0, "{report:?}");
    assert!(report.is_conformant(), "{report:?}");
}

/// in CBR mode the byte clock is
/// shared across programs, so a program whose frames run out
/// early still ages in stream time — the gap rule bounds the interval
/// per PCR_PID regardless of which program occupies the wire.
/// Standalone PCR packets must keep EVERY program's cadence
/// alive, not just the one owning the frame being written.
#[test]
fn cbr_multi_program_keeps_idle_programs_pcr_cadence() {
    let streams = vec![stream_info(0, "h264", true), stream_info(1, "hevc", true)];
    let mut sink = SharedSink::new();
    {
        let mut mx = MpegTsMuxer::with_config(&streams, &MpegTsMuxConfig {
                transport_stream_id: 1,
                original_network_id: 1,
                programs: vec![
                    ProgramSpec {
                        program_number: 1,
                        pmt_pid: 0x0100,
                        pcr_pid: None,
                        stream_indices: vec![0],
                        service: None,
                        events: Vec::new(),
                        es_descriptors: Vec::new(),
                    },
                    ProgramSpec {
                        program_number: 2,
                        pmt_pid: 0x0110,
                        pcr_pid: None,
                        stream_indices: vec![1],
                        service: None,
                        events: Vec::new(),
                        es_descriptors: Vec::new(),
                    },
                ],
                network: None,
            },
        )
        .expect("open");
        mx.set_mux_rate(Some(8_000_000));
        mx.write_header();
        // Program 2: a single early frame. Program 1: a second of
        // 25 fps video — program 2's PCR_PID must not fall silent
        // for that second.
        let p2 = packet(1, vec![0x22; 100])
            .with_pts(0)
            .with_keyframe(true);
        mx.write_packet(&p2).expect("p2");
        for i in 0..25i64 {
            let p1 = packet(0, vec![0x11; 2_000])
                .with_pts(i * 3_600)
                .with_keyframe(i == 0);
            mx.write_packet(&p1).expect("p1");
        }
        mx.write_trailer().expect("trailer");
        sink.0 = mx.take_output();
    }
    let bytes = sink.into_bytes();
    let report = validate_ts(&bytes);
    assert_eq!(report.violations.pcr_interval_exceeded, 0, "{report:?}");
    assert!(report.is_conformant(), "{report:?}");
}

/// CBR mode errors out when the configured rate cannot deliver a
/// frame before its decode time.
#[test]
fn cbr_rejects_insufficient_rate() {
    let streams = vec![stream_info(0, "h264", true)];
    let mut mx = MpegTsMuxer::new(&streams).expect("open");
    mx.set_mux_rate(Some(100_000));
    mx.write_header();
    // 20 KB at 100 kbit/s takes 1.6 s of wire time; the next frame
    // 40 ms later is unreachable.
    mx.write_packet(
        &packet(0, vec![0; 20_000]).with_pts(90_000),
    )
    .unwrap();
    let err = mx.write_packet(
        &packet(0, vec![0; 2_000]).with_pts(93_600),
    );
    assert!(err.is_err(), "{err:?}");
}

/// An armed time-base discontinuity must ride the first new-base
/// PCR on the PCR PID — exactly once — and the stream
/// must stay conformant across the break.
#[test]
fn time_base_discontinuity_rides_first_new_base_pcr() {
    let streams = vec![stream_info(0, "h264", true)];
    let mut sink = SharedSink::new();
    {
        let mut mx = MpegTsMuxer::new(&streams).expect("open");
        mx.write_header();
        for k in 0..4i64 {
            mx.write_packet(
                &packet(0, vec![1; 64])
                    .with_pts(90_000 + k * 3_600),
            )
            .unwrap();
        }
        // New time base, restarting near zero.
        mx.signal_time_base_discontinuity(1).unwrap();
        for k in 0..4i64 {
            mx.write_packet(
                &packet(0, vec![2; 64])
                    .with_pts(900 + k * 3_600),
            )
            .unwrap();
        }
        mx.write_trailer().unwrap();
        sink.0 = mx.take_output();
    }
    let bytes = sink.into_bytes();
    // Exactly one discontinuity-flagged packet, carrying a PCR,
    // after the four old-base PES.
    let mut flagged = Vec::new();
    let mut pes_starts_before_flag = 0usize;
    for chunk in bytes.chunks_exact(TS_PACKET_LEN) {
        let pkt = TsPacket::parse(chunk).unwrap();
        if pkt.pid != FIRST_ES_PID {
            continue;
        }
        if let Some(af) = &pkt.adaptation_field {
            if af.discontinuity_indicator {
                flagged.push(af.pcr_base.is_some());
            }
        }
        if flagged.is_empty() && pkt.payload_unit_start {
            pes_starts_before_flag += 1;
        }
    }
    assert_eq!(flagged, vec![true], "one flagged packet, with PCR");
    assert_eq!(pes_starts_before_flag, 4, "flag follows the old-base PES");
    let report = validate_ts(&bytes);
    assert!(report.is_conformant(), "{report:?}");

    // Unknown program is rejected.
    let mut mx = MpegTsMuxer::new(&streams).expect("open");
    assert!(mx.signal_time_base_discontinuity(7).is_err());
}

/// One packet's splice view: `(splice_countdown, seamless pair)`.
type SpliceAnnotation = (Option<i8>, Option<(u8, u64)>);

/// Collect the [`SpliceAnnotation`] of every packet on `pid`, in
/// stream order.
fn splice_annotations(bytes: &[u8], pid: u16) -> Vec<SpliceAnnotation> {
    let mut out = Vec::new();
    for chunk in bytes.chunks_exact(TS_PACKET_LEN) {
        let pkt = TsPacket::parse(chunk).expect("well-formed packet");
        if pkt.pid != pid {
            continue;
        }
        let countdown = pkt
            .adaptation_field
            .as_ref()
            .and_then(|af| af.splice_countdown);
        let seamless = pkt
            .adaptation_field
            .as_ref()
            .and_then(|af| af.adaptation_field_extension.as_ref())
            .and_then(|ext| match (ext.splice_type, ext.dts_next_au) {
                (Some(t), Some(d)) => Some((t, d)),
                _ => None,
            });
        out.push((countdown, seamless));
    }
    out
}

/// An armed seamless splice must count down to zero on the last
/// payload packet of the next PES, carry the splice_type /
/// DTS_next_AU pair on every annotated packet, and mark the
/// following packets with the negative countdown. The stream must
/// stay conformant and demux round-trip cleanly.
#[test]
fn seamless_splice_counts_down_to_zero_then_negative() {
    let streams = vec![stream_info(0, "h264", true)];
    let mut sink = SharedSink::new();
    {
        let mut mx = MpegTsMuxer::new(&streams).expect("open");
        mx.write_header();
        mx.signal_splice_after(
            0,
            SpliceSpec {
                seamless: Some(SeamlessSpliceSpec {
                    splice_type: 0x3,
                    dts_next_au: 48_000,
                }),
                post_splice_packets: 2,
            },
        )
        .unwrap();
        // ~1 KiB payload → several TS packets to count down over.
        mx.write_packet(
            &packet(0, vec![0xAB; 1000]).with_pts(45_000),
        )
        .unwrap();
        // The next PES supplies the negative-countdown packets.
        mx.write_packet(
            &packet(0, vec![0xCD; 1000]).with_pts(48_000),
        )
        .unwrap();
        mx.write_trailer().unwrap();
        sink.0 = mx.take_output();
    }
    let bytes = sink.into_bytes();

    // PID of the sole elementary stream is FIRST_ES_PID.
    let ann = splice_annotations(&bytes, FIRST_ES_PID);
    let countdowns: Vec<i8> = ann.iter().filter_map(|(c, _)| *c).collect();
    // Positive run down to zero, then the negative post-splice run.
    let zero_at = countdowns
        .iter()
        .position(|&c| c == 0)
        .expect("countdown 0");
    let start = countdowns[0];
    assert!(start > 0, "countdown must start positive: {countdowns:?}");
    for (k, &c) in countdowns[..=zero_at].iter().enumerate() {
        assert_eq!(c as i64, start as i64 - k as i64, "run {countdowns:?}");
    }
    assert_eq!(&countdowns[zero_at + 1..], &[-1, -2], "run {countdowns:?}");
    // Every positively-annotated packet carries the seamless pair.
    for (c, seamless) in &ann {
        match c {
            Some(c) if *c >= 0 => assert_eq!(*seamless, Some((0x3, 48_000))),
            _ => assert_eq!(*seamless, None),
        }
    }
    // The countdown-zero packet's payload must end the PES: the
    // next payload packet on the PID starts a new PES (PUSI).
    let mut after_zero = false;
    for chunk in bytes.chunks_exact(TS_PACKET_LEN) {
        let pkt = TsPacket::parse(chunk).unwrap();
        if pkt.pid != FIRST_ES_PID {
            continue;
        }
        if after_zero && !pkt.payload.is_empty() {
            assert!(
                pkt.payload_unit_start,
                "post-splice payload must start a PES"
            );
            after_zero = false;
        }
        if pkt
            .adaptation_field
            .as_ref()
            .and_then(|af| af.splice_countdown)
            == Some(0)
        {
            after_zero = true;
        }
    }

    // Conformance + demux round-trip are unaffected.
    let report = validate_ts(&bytes);
    assert!(report.is_conformant(), "{report:?}");
    let mut dmx = Demux::open(&bytes, 1);
    let p1 = dmx.next_packet().expect("p1");
    let p2 = dmx.next_packet().expect("p2");
    assert_eq!(p1.data, vec![0xAB; 1000]);
    assert_eq!(p2.data, vec![0xCD; 1000]);
    assert_eq!(p1.pts, Some(45_000));
    assert_eq!(p2.pts, Some(48_000));
}

/// An ordinary (non-seamless) splicing point carries only the
/// countdown — no adaptation-field extension.
#[test]
fn ordinary_splice_carries_no_extension() {
    let streams = vec![stream_info(0, "ac3", false)];
    let mut sink = SharedSink::new();
    {
        let mut mx = MpegTsMuxer::new(&streams).expect("open");
        mx.write_header();
        mx.signal_splice_after(0, SpliceSpec::default()).unwrap();
        mx.write_packet(
            &packet(0, vec![0x11; 400]).with_pts(9_000),
        )
        .unwrap();
        mx.write_trailer().unwrap();
        sink.0 = mx.take_output();
    }
    let bytes = sink.into_bytes();
    let ann = splice_annotations(&bytes, FIRST_ES_PID);
    let countdowns: Vec<i8> = ann.iter().filter_map(|(c, _)| *c).collect();
    assert!(!countdowns.is_empty());
    assert_eq!(*countdowns.last().unwrap(), 0);
    assert!(ann.iter().all(|(_, s)| s.is_none()));
    assert!(validate_ts(&bytes).is_conformant());
}

/// A PES spanning more than 128 payload packets must start the
/// countdown at 127 on the 128th-from-last packet (the field is a
/// signed 8-bit tcimsbf) and still reach zero on the last one.
#[test]
fn splice_countdown_caps_at_127_for_long_pes() {
    let streams = vec![stream_info(0, "h264", true)];
    let mut sink = SharedSink::new();
    {
        let mut mx = MpegTsMuxer::new(&streams).expect("open");
        mx.write_header();
        mx.signal_splice_after(0, SpliceSpec::default()).unwrap();
        // ~40 KiB → well over 128 TS packets of ~184 bytes.
        mx.write_packet(
            &packet(0, vec![0x42; 40_000]).with_pts(90_000),
        )
        .unwrap();
        mx.write_trailer().unwrap();
        sink.0 = mx.take_output();
    }
    let bytes = sink.into_bytes();
    let ann = splice_annotations(&bytes, FIRST_ES_PID);
    let countdowns: Vec<i8> = ann.iter().filter_map(|(c, _)| *c).collect();
    assert_eq!(countdowns.first(), Some(&127), "run head {countdowns:?}");
    assert_eq!(countdowns.len(), 128);
    assert_eq!(*countdowns.last().unwrap(), 0);
    // The unannotated leading packets must outnumber zero (the PES
    // is longer than the annotated window).
    let total_payload_packets = bytes
        .chunks_exact(TS_PACKET_LEN)
        .filter(|c| {
            let pkt = TsPacket::parse(c).unwrap();
            pkt.pid == FIRST_ES_PID && !pkt.payload.is_empty()
        })
        .count();
    assert!(total_payload_packets > 128);
    assert!(validate_ts(&bytes).is_conformant());
}

/// Audio streams must carry splice_type '0000'; the
/// 4-bit / 33-bit field widths are enforced at arm time.
#[test]
fn splice_spec_validation() {
    let streams = vec![stream_info(0, "h264", true), stream_info(1, "ac3", false)];
    let mut mx = MpegTsMuxer::new(&streams).expect("open");
    // Unknown stream.
    assert!(mx.signal_splice_after(9, SpliceSpec::default()).is_err());
    // Non-zero splice_type on audio.
    assert!(mx
        .signal_splice_after(
            1,
            SpliceSpec {
                seamless: Some(SeamlessSpliceSpec {
                    splice_type: 1,
                    dts_next_au: 0,
                }),
                ..Default::default()
            },
        )
        .is_err());
    // Zero splice_type on audio is fine.
    assert!(mx
        .signal_splice_after(
            1,
            SpliceSpec {
                seamless: Some(SeamlessSpliceSpec {
                    splice_type: 0,
                    dts_next_au: 0,
                }),
                ..Default::default()
            },
        )
        .is_ok());
    // Width overflows.
    assert!(mx
        .signal_splice_after(
            0,
            SpliceSpec {
                seamless: Some(SeamlessSpliceSpec {
                    splice_type: 0x10,
                    dts_next_au: 0,
                }),
                ..Default::default()
            },
        )
        .is_err());
    assert!(mx
        .signal_splice_after(
            0,
            SpliceSpec {
                seamless: Some(SeamlessSpliceSpec {
                    splice_type: 0,
                    dts_next_au: 1 << 33,
                }),
                ..Default::default()
            },
        )
        .is_err());
}
