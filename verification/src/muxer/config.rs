//! What a multiplexer is asked to do.
use vstd::prelude::*;
use vstd::string::StringSliceAdditionalSpecFns;
use vstd::utf8::encode_utf8_decode_utf8;

use crate::error::TsError;
use crate::psi::dvb::RunningStatus;
use crate::psi::time::{EitDateTime, EitDuration};
use crate::stream_type::StreamType;

verus! {

/// One input stream.
#[derive(Debug, Clone)]
pub struct MuxStream {
    /// Index by which programs and packets name the stream.
    pub index: u32,
    /// Codec, such as `h264`.
    pub codec_id: String,
    /// Language tag.
    pub language: Option<String>,
}

/// One frame of a stream.
#[derive(Debug, Clone)]
pub struct MuxPacket {
    /// Index of the stream.
    pub stream_index: u32,
    /// Presentation time, 90 kHz.
    pub pts: Option<i64>,
    /// Decoding time, 90 kHz.
    pub dts: Option<i64>,
    /// The frame is a random access point.
    pub keyframe: bool,
    /// The coded frame.
    pub data: Vec<u8>,
}

/// Why the multiplexer refuses.
#[derive(Debug, Clone, PartialEq, Eq)]
pub enum MuxError {
    /// There is no input stream.
    NoStreams,
    /// There is no program.
    NoPrograms,
    /// Program number 0 stands for the network PID.
    ReservedProgramNumber,
    /// A program names a stream that is not there.
    UnknownStream { program_number: u16, stream_index: u32 },
    /// Two programs name one stream.
    StreamAssignedTwice { stream_index: u32 },
    /// No `stream_type` stands for the stream's codec.
    UnsupportedCodec { stream_index: u32 },
    /// A program has no streams.
    EmptyProgram { program_number: u16 },
    /// A packet before the header.
    HeaderNotWritten,
    /// A packet or a splice for a stream that is not there.
    NoSuchStream { stream_index: u32 },
    /// A `splice_type` over 4 bits.
    SpliceTypeTooWide,
    /// A `DTS_next_AU` over 33 bits.
    DtsNextAuTooWide,
    /// A `splice_type` other than 0 on a stream that is not video.
    SpliceTypeNotVideo,
    /// A discontinuity for a program that is not there.
    NoSuchProgram { program_number: u16 },
    /// The clock has passed the frame's decoding time: the rate is too low.
    RateTooLow,
    /// A field does not fit the wire format.
    Format(TsError),
}

/// Seamless splice signalling.
#[derive(Debug, Clone, Copy, PartialEq, Eq)]
pub struct SeamlessSpliceSpec {
    /// 4-bit `splice_type`; 0 on an audio stream.
    pub splice_type: u8,
    /// 33-bit decoding time of the first access unit after the splicing point.
    pub dts_next_au: u64,
}

/// A splicing point after the next packet of a stream.
#[derive(Debug, Clone, Copy, PartialEq, Eq)]
pub struct SpliceSpec {
    /// Seamless splice fields, on every packet of the countdown.
    pub seamless: Option<SeamlessSpliceSpec>,
    /// Packets after the splicing point that carry a negative countdown, at most
    /// 127.
    pub post_splice_packets: u8,
}

impl Default for SpliceSpec {
    fn default() -> (r: Self)
        ensures
            r == (SpliceSpec { seamless: None, post_splice_packets: 0 }),
    {
        SpliceSpec { seamless: None, post_splice_packets: 0 }
    }
}

impl SpliceSpec {
    /// The fields fit, and the countdown after the point is capped.
    pub open spec fn wf(self) -> bool {
        &&& self.post_splice_packets <= 127
        &&& self.seamless matches Some(s) ==> s.splice_type <= 0xF && s.dts_next_au <= 0x1_FFFF_FFFF
    }
}

/// What the SDT says of a program.
#[derive(Debug, Clone)]
pub struct ServiceSpec {
    /// `service_type`.
    pub service_type: u8,
    /// Raw provider name.
    pub provider_name: Vec<u8>,
    /// Raw service name.
    pub service_name: Vec<u8>,
}

/// A present or following event of a program.
#[derive(Debug, Clone)]
pub struct EventSpec {
    /// `event_id`.
    pub event_id: u16,
    /// Start time.
    pub start_time: Option<EitDateTime>,
    /// Duration.
    pub duration: EitDuration,
    /// `running_status`.
    pub running_status: RunningStatus,
    /// Language of the texts.
    pub language: [u8; 3],
    /// Raw event name.
    pub event_name: Vec<u8>,
    /// Raw short text.
    pub text: Vec<u8>,
}

/// One program of the transport stream.
#[derive(Debug, Clone)]
pub struct ProgramSpec {
    /// `program_number`, not 0.
    pub program_number: u16,
    /// PID of the program's PMT.
    pub pmt_pid: u16,
    /// PCR PID; `None` takes the first video stream, or else the first stream.
    pub pcr_pid: Option<u16>,
    /// Indices of the program's streams, in PMT order.
    pub stream_indices: Vec<u32>,
    /// What the SDT says; `None` leaves the program out.
    pub service: Option<ServiceSpec>,
    /// Present and following events; none leaves the program out of the EIT.
    pub events: Vec<EventSpec>,
    /// Descriptor bytes to append for streams, by index.
    pub es_descriptors: Vec<(u32, Vec<u8>)>,
}

/// What the NIT says.
#[derive(Debug, Clone)]
pub struct NetworkSpec {
    /// `network_id`.
    pub network_id: u16,
    /// Raw network name.
    pub network_name: Vec<u8>,
    /// Further descriptor bytes of the network.
    pub network_descriptors: Vec<u8>,
    /// Descriptor bytes of this transport stream.
    pub transport_descriptors: Vec<u8>,
}

/// The programs of a transport stream.
#[derive(Debug, Clone)]
pub struct MpegTsMuxConfig {
    /// `transport_stream_id`.
    pub transport_stream_id: u16,
    /// `original_network_id`.
    pub original_network_id: u16,
    /// The programs.
    pub programs: Vec<ProgramSpec>,
    /// What the NIT says; `None` writes no NIT.
    pub network: Option<NetworkSpec>,
}

impl Default for MpegTsMuxConfig {
    fn default() -> (r: Self)
        ensures
            r.transport_stream_id == 1,
            r.original_network_id == 1,
            r.programs@.len() == 0,
            r.network is None,
    {
        MpegTsMuxConfig {
            transport_stream_id: 1,
            original_network_id: 1,
            programs: Vec::new(),
            network: None,
        }
    }
}

/// The three-byte code of a language tag: its first three bytes, filled up with
/// spaces.
pub open spec fn language_code(tag: Seq<u8>) -> Seq<u8> {
    Seq::new(3, |i: int| if i < tag.len() { tag[i] } else { 0x20u8 })
}

/// The three-byte code of a language tag.
pub fn iso639_code(tag: &str) -> (r: [u8; 3])
    ensures
        r@ == language_code(tag.spec_bytes()),
{
    let b: &[u8] = tag.as_bytes();
    let r: [u8; 3] = [
        if b.len() > 0 { b[0] } else { 0x20 },
        if b.len() > 1 { b[1] } else { 0x20 },
        if b.len() > 2 { b[2] } else { 0x20 },
    ];
    assert(r@ =~= language_code(tag.spec_bytes()));
    r
}

fn same_text(a: &str, b: &str) -> (r: bool)
    ensures
        r == (a@ == b@),
{
    let x: &[u8] = a.as_bytes();
    let y: &[u8] = b.as_bytes();
    if x.len() != y.len() {
        return false;
    }
    let mut i: usize = 0;
    while i < x.len()
        invariant
            i <= x@.len(),
            x@.len() == y@.len(),
            x@ == a.spec_bytes(),
            y@ == b.spec_bytes(),
            forall|j: int| 0 <= j < i ==> x@[j] == y@[j],
        decreases x@.len() - i,
    {
        if x[i] != y[i] {
            return false;
        }
        i += 1;
    }
    proof {
        assert(x@ =~= y@);
        encode_utf8_decode_utf8(a@);
        encode_utf8_decode_utf8(b@);
    }
    true
}

/// `stream_type`, `stream_id`, and whether the codec is video.
pub open spec fn codec_entry(codec: Seq<char>) -> Option<(u8, u8, bool)> {
    if codec == "mpeg2video"@ {
        Some((0x02, 0xE0, true))
    } else if codec == "h264"@ {
        Some((0x1B, 0xE0, true))
    } else if codec == "hevc"@ {
        Some((0x24, 0xE0, true))
    } else if codec == "vc1"@ {
        Some((0xEA, 0xE0, true))
    } else if codec == "pcm_s16be"@ {
        Some((0x80, 0xBD, false))
    } else if codec == "ac3"@ {
        Some((0x81, 0xBD, false))
    } else if codec == "dts"@ {
        Some((0x82, 0xBD, false))
    } else if codec == "truehd"@ {
        Some((0x83, 0xBD, false))
    } else if codec == "eac3"@ {
        Some((0x84, 0xBD, false))
    } else if codec == "hdmv_pgs_subtitle"@ {
        Some((0x90, 0xBD, false))
    } else if codec == "hdmv_textst_subtitle"@ {
        Some((0x92, 0xBD, false))
    } else {
        None
    }
}

/// `stream_type`, `stream_id`, and whether the codec is video; `None` for a codec
/// without a `stream_type`.
pub fn stream_type_for_codec(codec_id: &str) -> (r: Option<(u8, u8, bool)>)
    ensures
        r == codec_entry(codec_id@),
{
    if same_text(codec_id, "mpeg2video") {
        Some((0x02, 0xE0, true))
    } else if same_text(codec_id, "h264") {
        Some((0x1B, 0xE0, true))
    } else if same_text(codec_id, "hevc") {
        Some((0x24, 0xE0, true))
    } else if same_text(codec_id, "vc1") {
        Some((0xEA, 0xE0, true))
    } else if same_text(codec_id, "pcm_s16be") {
        Some((0x80, 0xBD, false))
    } else if same_text(codec_id, "ac3") {
        Some((0x81, 0xBD, false))
    } else if same_text(codec_id, "dts") {
        Some((0x82, 0xBD, false))
    } else if same_text(codec_id, "truehd") {
        Some((0x83, 0xBD, false))
    } else if same_text(codec_id, "eac3") {
        Some((0x84, 0xBD, false))
    } else if same_text(codec_id, "hdmv_pgs_subtitle") {
        Some((0x90, 0xBD, false))
    } else if same_text(codec_id, "hdmv_textst_subtitle") {
        Some((0x92, 0xBD, false))
    } else {
        None
    }
}

/// The names of codecs differ.
proof fn lemma_names_differ()
    ensures
        "mpeg2video"@ != "h264"@,
        "mpeg2video"@ != "hevc"@,
        "mpeg2video"@ != "vc1"@,
        "mpeg2video"@ != "pcm_s16be"@,
        "mpeg2video"@ != "ac3"@,
        "mpeg2video"@ != "dts"@,
        "mpeg2video"@ != "truehd"@,
        "mpeg2video"@ != "eac3"@,
        "mpeg2video"@ != "hdmv_pgs_subtitle"@,
        "mpeg2video"@ != "hdmv_textst_subtitle"@,
        "h264"@ != "hevc"@,
        "h264"@ != "vc1"@,
        "h264"@ != "pcm_s16be"@,
        "h264"@ != "ac3"@,
        "h264"@ != "dts"@,
        "h264"@ != "truehd"@,
        "h264"@ != "eac3"@,
        "h264"@ != "hdmv_pgs_subtitle"@,
        "h264"@ != "hdmv_textst_subtitle"@,
        "hevc"@ != "vc1"@,
        "hevc"@ != "pcm_s16be"@,
        "hevc"@ != "ac3"@,
        "hevc"@ != "dts"@,
        "hevc"@ != "truehd"@,
        "hevc"@ != "eac3"@,
        "hevc"@ != "hdmv_pgs_subtitle"@,
        "hevc"@ != "hdmv_textst_subtitle"@,
        "vc1"@ != "pcm_s16be"@,
        "vc1"@ != "ac3"@,
        "vc1"@ != "dts"@,
        "vc1"@ != "truehd"@,
        "vc1"@ != "eac3"@,
        "vc1"@ != "hdmv_pgs_subtitle"@,
        "vc1"@ != "hdmv_textst_subtitle"@,
        "pcm_s16be"@ != "ac3"@,
        "pcm_s16be"@ != "dts"@,
        "pcm_s16be"@ != "truehd"@,
        "pcm_s16be"@ != "eac3"@,
        "pcm_s16be"@ != "hdmv_pgs_subtitle"@,
        "pcm_s16be"@ != "hdmv_textst_subtitle"@,
        "ac3"@ != "dts"@,
        "ac3"@ != "truehd"@,
        "ac3"@ != "eac3"@,
        "ac3"@ != "hdmv_pgs_subtitle"@,
        "ac3"@ != "hdmv_textst_subtitle"@,
        "dts"@ != "truehd"@,
        "dts"@ != "eac3"@,
        "dts"@ != "hdmv_pgs_subtitle"@,
        "dts"@ != "hdmv_textst_subtitle"@,
        "truehd"@ != "eac3"@,
        "truehd"@ != "hdmv_pgs_subtitle"@,
        "truehd"@ != "hdmv_textst_subtitle"@,
        "eac3"@ != "hdmv_pgs_subtitle"@,
        "eac3"@ != "hdmv_textst_subtitle"@,
        "hdmv_pgs_subtitle"@ != "hdmv_textst_subtitle"@,
{
    reveal_strlit("mpeg2video");
    reveal_strlit("h264");
    reveal_strlit("hevc");
    reveal_strlit("vc1");
    reveal_strlit("pcm_s16be");
    reveal_strlit("ac3");
    reveal_strlit("dts");
    reveal_strlit("truehd");
    reveal_strlit("eac3");
    reveal_strlit("hdmv_pgs_subtitle");
    reveal_strlit("hdmv_textst_subtitle");
    assert("mpeg2video"@.len() == 10);
    assert("h264"@.len() == 4);
    assert("hevc"@.len() == 4);
    assert("vc1"@.len() == 3);
    assert("pcm_s16be"@.len() == 9);
    assert("ac3"@.len() == 3);
    assert("dts"@.len() == 3);
    assert("truehd"@.len() == 6);
    assert("eac3"@.len() == 4);
    assert("hdmv_pgs_subtitle"@.len() == 17);
    assert("hdmv_textst_subtitle"@.len() == 20);
    assert("h264"@[1] != "hevc"@[1]);
    assert("h264"@[0] != "eac3"@[0]);
    assert("hevc"@[0] != "eac3"@[0]);
    assert("vc1"@[0] != "ac3"@[0]);
    assert("vc1"@[0] != "dts"@[0]);
    assert("ac3"@[0] != "dts"@[0]);
}

/// Every codec name the multiplexer takes is announced as that codec: the `stream_type`
/// that goes with it is, to a reader, the class of that very codec, and no other name
/// has it. Any other name is refused.
pub proof fn lemma_codec_announced(codec: Seq<char>, t: StreamType)
    requires
        t.is_canonical(),
        codec_entry(codec) matches Some((b, _, _)) ==> t.raw() == b,
    ensures
        codec == "mpeg2video"@ ==> codec_entry(codec) is Some && t == StreamType::Mpeg2Video,
        codec == "h264"@ ==> codec_entry(codec) is Some && t == StreamType::AvcVideo,
        codec == "hevc"@ ==> codec_entry(codec) is Some && t == StreamType::HevcVideo,
        codec == "vc1"@ ==> codec_entry(codec) is Some && t == StreamType::Vc1Video,
        codec == "pcm_s16be"@ ==> codec_entry(codec) is Some && t == StreamType::LpcmAudio,
        codec == "ac3"@ ==> codec_entry(codec) is Some && t == StreamType::Ac3Audio,
        codec == "dts"@ ==> codec_entry(codec) is Some && t == StreamType::DtsAudio,
        codec == "truehd"@ ==> codec_entry(codec) is Some && t == StreamType::TruehdAudio,
        codec == "eac3"@ ==> codec_entry(codec) is Some && t == StreamType::EAc3Audio,
        codec == "hdmv_pgs_subtitle"@ ==> codec_entry(codec) is Some && t == StreamType::PgsSubtitle,
        codec == "hdmv_textst_subtitle"@ ==> codec_entry(codec) is Some && t == StreamType::TextSubtitle,
        codec_entry(codec) is Some ==> {
            &&& t == StreamType::Mpeg2Video ==> codec == "mpeg2video"@
            &&& t == StreamType::AvcVideo ==> codec == "h264"@
            &&& t == StreamType::HevcVideo ==> codec == "hevc"@
            &&& t == StreamType::Vc1Video ==> codec == "vc1"@
            &&& t == StreamType::LpcmAudio ==> codec == "pcm_s16be"@
            &&& t == StreamType::Ac3Audio ==> codec == "ac3"@
            &&& t == StreamType::DtsAudio ==> codec == "dts"@
            &&& t == StreamType::TruehdAudio ==> codec == "truehd"@
            &&& t == StreamType::EAc3Audio ==> codec == "eac3"@
            &&& t == StreamType::PgsSubtitle ==> codec == "hdmv_pgs_subtitle"@
            &&& t == StreamType::TextSubtitle ==> codec == "hdmv_textst_subtitle"@
        },
        codec_entry(codec) is Some <==> {
            ||| codec == "mpeg2video"@
            ||| codec == "h264"@
            ||| codec == "hevc"@
            ||| codec == "vc1"@
            ||| codec == "pcm_s16be"@
            ||| codec == "ac3"@
            ||| codec == "dts"@
            ||| codec == "truehd"@
            ||| codec == "eac3"@
            ||| codec == "hdmv_pgs_subtitle"@
            ||| codec == "hdmv_textst_subtitle"@
        },
{
    lemma_names_differ();
}

/// The `stream_type` byte of every codec name; video goes as the first video stream,
/// anything else as private stream 1.
pub proof fn lemma_codec_bytes(codec: Seq<char>)
    ensures
        codec == "mpeg2video"@ ==> codec_entry(codec) == Some((0x02u8, 0xE0u8, true)),
        codec == "h264"@ ==> codec_entry(codec) == Some((0x1Bu8, 0xE0u8, true)),
        codec == "hevc"@ ==> codec_entry(codec) == Some((0x24u8, 0xE0u8, true)),
        codec == "vc1"@ ==> codec_entry(codec) == Some((0xEAu8, 0xE0u8, true)),
        codec == "pcm_s16be"@ ==> codec_entry(codec) == Some((0x80u8, 0xBDu8, false)),
        codec == "ac3"@ ==> codec_entry(codec) == Some((0x81u8, 0xBDu8, false)),
        codec == "dts"@ ==> codec_entry(codec) == Some((0x82u8, 0xBDu8, false)),
        codec == "truehd"@ ==> codec_entry(codec) == Some((0x83u8, 0xBDu8, false)),
        codec == "eac3"@ ==> codec_entry(codec) == Some((0x84u8, 0xBDu8, false)),
        codec == "hdmv_pgs_subtitle"@ ==> codec_entry(codec) == Some((0x90u8, 0xBDu8, false)),
        codec == "hdmv_textst_subtitle"@ ==> codec_entry(codec) == Some((0x92u8, 0xBDu8, false)),
{
    lemma_names_differ();
}

/// Whether a codec is video is what its class says, and goes with the stream id of a
/// video stream.
pub proof fn lemma_codec_kind(codec: Seq<char>, t: StreamType)
    requires
        t.is_canonical(),
        codec_entry(codec) matches Some((b, _, _)) && t.raw() == b,
    ensures
        codec_entry(codec) matches Some((_, id, is_video)) && is_video == t.video() && id == (
        if t.video() { 0xE0u8 } else { 0xBD }),
{
}

} // verus!
