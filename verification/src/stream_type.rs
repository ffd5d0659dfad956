//! The `stream_type` byte (MPEG-2 systems values and those of
//! Blu-ray elementary streams) as an enum.
use vstd::prelude::*;

verus! {

/// Payload class of an elementary stream.
#[derive(Debug, Clone, Copy, PartialEq, Eq)]
pub enum StreamType {
    /// 0x01: MPEG-1 video.
    Mpeg1Video,
    /// 0x02: MPEG-2 video.
    Mpeg2Video,
    /// 0x03: MPEG-1 audio (MP1, MP2, MP3).
    Mpeg1Audio,
    /// 0x04: MPEG-2 audio.
    Mpeg2Audio,
    /// 0x05: Private sections.
    PrivateSections,
    /// 0x06: PES packets carrying private data.
    PrivatePes,
    /// 0x07: MHEG.
    Mheg,
    /// 0x08: DSM-CC.
    DsmCc,
    /// 0x09: H.222.1 stream.
    H2221,
    /// 0x0A: DSM-CC type A (multiprotocol encapsulation).
    Dsmcc13818_6TypeA,
    /// 0x0B: DSM-CC type B (U-N messages).
    Dsmcc13818_6TypeB,
    /// 0x0C: DSM-CC type C (stream descriptors).
    Dsmcc13818_6TypeC,
    /// 0x0D: DSM-CC type D (sections of any type).
    Dsmcc13818_6TypeD,
    /// 0x0E: Auxiliary data.
    Auxiliary,
    /// 0x0F: AAC audio with ADTS transport syntax.
    AacAdts,
    /// 0x10: MPEG-4 part 2 video.
    Mpeg4Visual,
    /// 0x11: MPEG-4 audio.
    AacLatm,
    /// 0x12: MPEG-4 SL-packetized / FlexMux stream carried in PES packets.
    Mpeg4SlPes,
    /// 0x13: MPEG-4 SL-packetized / FlexMux stream carried in sections.
    Mpeg4SlSections,
    /// 0x14: DSM-CC Synchronized Download Protocol.
    SyncDownloadProtocol,
    /// 0x15: Metadata carried in PES packets.
    MetadataPes,
    /// 0x16: Metadata carried in metadata sections.
    MetadataSections,
    /// 0x17: Metadata carried in a DSM-CC data carousel.
    MetadataDataCarousel,
    /// 0x18: Metadata carried in a DSM-CC object carousel.
    MetadataObjectCarousel,
    /// 0x19: Metadata carried in DSM-CC Synchronized Download Protocol.
    MetadataSyncDownload,
    /// 0x1A: IPMP stream (MPEG-2 IPMP).
    Ipmp,
    /// 0x1B: AVC video (H.264).
    AvcVideo,
    /// 0x1C: Raw MPEG-4 audio, no additional transport syntax.
    Mpeg4AudioRaw,
    /// 0x1D: MPEG-4 timed text.
    Mpeg4Text,
    /// 0x1E: Auxiliary video stream.
    AuxiliaryVideo,
    /// 0x1F: SVC video sub-bitstream of an AVC stream.
    SvcVideo,
    /// 0x20: MVC video sub-bitstream of an AVC stream.
    MvcVideo,
    /// 0x21: JPEG 2000 video.
    Jpeg2000Video,
    /// 0x22: Additional view of a stereoscopic MPEG-2 video stream.
    Mpeg2StereoView,
    /// 0x23: Additional view of a stereoscopic AVC video stream.
    AvcStereoView,
    /// 0x24: HEVC video (H.265).
    HevcVideo,
    /// 0x25: HEVC temporal video subset.
    HevcTemporalSubset,
    /// 0x26: MVCD video sub-bitstream of an AVC stream.
    MvcdVideo,
    /// 0x42: Chinese AVS video (GB/T 20090.2 / AVS1-P2).
    AvsVideo,
    /// 0xEA: SMPTE VC-1 (Microsoft Windows Media Video 9).
    Vc1Video,
    /// 0x80: Linear PCM audio (Blu-ray, big-endian).
    LpcmAudio,
    /// 0x81: Dolby AC-3.
    Ac3Audio,
    /// 0x82: DTS.
    DtsAudio,
    /// 0x83: Dolby TrueHD.
    TruehdAudio,
    /// 0x84: Dolby Digital Plus (E-AC-3).
    EAc3Audio,
    /// 0x85: DTS-HD High Resolution.
    DtsHdAudio,
    /// 0x86: DTS-HD Master Audio.
    DtsHdMaAudio,
    /// 0xA1: E-AC-3 secondary audio.
    EAc3SecondaryAudio,
    /// 0xA2: DTS-HD secondary audio.
    DtsHdSecondaryAudio,
    /// 0x90: HDMV Presentation Graphic Stream (PGS) subtitles.
    PgsSubtitle,
    /// 0x91: HDMV Interactive Graphics Stream (IGS).
    IgsInteractive,
    /// 0x92: HDMV Text Subtitle Stream (TextST).
    TextSubtitle,
    /// Any other value.
    Other(u8),
}

/// A variant of its own stands for value `b`.
pub open spec fn is_named(b: u8) -> bool {
    ||| 0x01 <= b <= 0x26
    ||| b == 0x42
    ||| 0x80 <= b <= 0x86
    ||| 0x90 <= b <= 0x92
    ||| 0xA1 <= b <= 0xA2
    ||| b == 0xEA
}

impl StreamType {
    /// The value that `self` stands for.
    pub open spec fn raw(self) -> u8 {
        match self {
            StreamType::Mpeg1Video => 0x01,
            StreamType::Mpeg2Video => 0x02,
            StreamType::Mpeg1Audio => 0x03,
            StreamType::Mpeg2Audio => 0x04,
            StreamType::PrivateSections => 0x05,
            StreamType::PrivatePes => 0x06,
            StreamType::Mheg => 0x07,
            StreamType::DsmCc => 0x08,
            StreamType::H2221 => 0x09,
            StreamType::Dsmcc13818_6TypeA => 0x0A,
            StreamType::Dsmcc13818_6TypeB => 0x0B,
            StreamType::Dsmcc13818_6TypeC => 0x0C,
            StreamType::Dsmcc13818_6TypeD => 0x0D,
            StreamType::Auxiliary => 0x0E,
            StreamType::AacAdts => 0x0F,
            StreamType::Mpeg4Visual => 0x10,
            StreamType::AacLatm => 0x11,
            StreamType::Mpeg4SlPes => 0x12,
            StreamType::Mpeg4SlSections => 0x13,
            StreamType::SyncDownloadProtocol => 0x14,
            StreamType::MetadataPes => 0x15,
            StreamType::MetadataSections => 0x16,
            StreamType::MetadataDataCarousel => 0x17,
            StreamType::MetadataObjectCarousel => 0x18,
            StreamType::MetadataSyncDownload => 0x19,
            StreamType::Ipmp => 0x1A,
            StreamType::AvcVideo => 0x1B,
            StreamType::Mpeg4AudioRaw => 0x1C,
            StreamType::Mpeg4Text => 0x1D,
            StreamType::AuxiliaryVideo => 0x1E,
            StreamType::SvcVideo => 0x1F,
            StreamType::MvcVideo => 0x20,
            StreamType::Jpeg2000Video => 0x21,
            StreamType::Mpeg2StereoView => 0x22,
            StreamType::AvcStereoView => 0x23,
            StreamType::HevcVideo => 0x24,
            StreamType::HevcTemporalSubset => 0x25,
            StreamType::MvcdVideo => 0x26,
            StreamType::AvsVideo => 0x42,
            StreamType::Vc1Video => 0xEA,
            StreamType::LpcmAudio => 0x80,
            StreamType::Ac3Audio => 0x81,
            StreamType::DtsAudio => 0x82,
            StreamType::TruehdAudio => 0x83,
            StreamType::EAc3Audio => 0x84,
            StreamType::DtsHdAudio => 0x85,
            StreamType::DtsHdMaAudio => 0x86,
            StreamType::EAc3SecondaryAudio => 0xA1,
            StreamType::DtsHdSecondaryAudio => 0xA2,
            StreamType::PgsSubtitle => 0x90,
            StreamType::IgsInteractive => 0x91,
            StreamType::TextSubtitle => 0x92,
            StreamType::Other(b) => b,
        }
    }

    /// No variant of its own stands for the value of an `Other`.
    pub open spec fn is_canonical(self) -> bool {
        self is Other ==> !is_named(self.raw())
    }

    /// The variant for a `stream_type` byte.
    pub fn from_raw(b: u8) -> (r: Self)
        ensures
            r.raw() == b,
            r.is_canonical(),
            b == 0x01 ==> r == StreamType::Mpeg1Video,
            b == 0x02 ==> r == StreamType::Mpeg2Video,
            b == 0x03 ==> r == StreamType::Mpeg1Audio,
            b == 0x04 ==> r == StreamType::Mpeg2Audio,
            b == 0x05 ==> r == StreamType::PrivateSections,
            b == 0x06 ==> r == StreamType::PrivatePes,
            b == 0x07 ==> r == StreamType::Mheg,
            b == 0x08 ==> r == StreamType::DsmCc,
            b == 0x09 ==> r == StreamType::H2221,
            b == 0x0A ==> r == StreamType::Dsmcc13818_6TypeA,
            b == 0x0B ==> r == StreamType::Dsmcc13818_6TypeB,
            b == 0x0C ==> r == StreamType::Dsmcc13818_6TypeC,
            b == 0x0D ==> r == StreamType::Dsmcc13818_6TypeD,
            b == 0x0E ==> r == StreamType::Auxiliary,
            b == 0x0F ==> r == StreamType::AacAdts,
            b == 0x10 ==> r == StreamType::Mpeg4Visual,
            b == 0x11 ==> r == StreamType::AacLatm,
            b == 0x12 ==> r == StreamType::Mpeg4SlPes,
            b == 0x13 ==> r == StreamType::Mpeg4SlSections,
            b == 0x14 ==> r == StreamType::SyncDownloadProtocol,
            b == 0x15 ==> r == StreamType::MetadataPes,
            b == 0x16 ==> r == StreamType::MetadataSections,
            b == 0x17 ==> r == StreamType::MetadataDataCarousel,
            b == 0x18 ==> r == StreamType::MetadataObjectCarousel,
            b == 0x19 ==> r == StreamType::MetadataSyncDownload,
            b == 0x1A ==> r == StreamType::Ipmp,
            b == 0x1B ==> r == StreamType::AvcVideo,
            b == 0x1C ==> r == StreamType::Mpeg4AudioRaw,
            b == 0x1D ==> r == StreamType::Mpeg4Text,
            b == 0x1E ==> r == StreamType::AuxiliaryVideo,
            b == 0x1F ==> r == StreamType::SvcVideo,
            b == 0x20 ==> r == StreamType::MvcVideo,
            b == 0x21 ==> r == StreamType::Jpeg2000Video,
            b == 0x22 ==> r == StreamType::Mpeg2StereoView,
            b == 0x23 ==> r == StreamType::AvcStereoView,
            b == 0x24 ==> r == StreamType::HevcVideo,
            b == 0x25 ==> r == StreamType::HevcTemporalSubset,
            b == 0x26 ==> r == StreamType::MvcdVideo,
            b == 0x42 ==> r == StreamType::AvsVideo,
            b == 0xEA ==> r == StreamType::Vc1Video,
            b == 0x80 ==> r == StreamType::LpcmAudio,
            b == 0x81 ==> r == StreamType::Ac3Audio,
            b == 0x82 ==> r == StreamType::DtsAudio,
            b == 0x83 ==> r == StreamType::TruehdAudio,
            b == 0x84 ==> r == StreamType::EAc3Audio,
            b == 0x85 ==> r == StreamType::DtsHdAudio,
            b == 0x86 ==> r == StreamType::DtsHdMaAudio,
            b == 0xA1 ==> r == StreamType::EAc3SecondaryAudio,
            b == 0xA2 ==> r == StreamType::DtsHdSecondaryAudio,
            b == 0x90 ==> r == StreamType::PgsSubtitle,
            b == 0x91 ==> r == StreamType::IgsInteractive,
            b == 0x92 ==> r == StreamType::TextSubtitle,
    {
        match b {
            0x01 => StreamType::Mpeg1Video,
            0x02 => StreamType::Mpeg2Video,
            0x03 => StreamType::Mpeg1Audio,
            0x04 => StreamType::Mpeg2Audio,
            0x05 => StreamType::PrivateSections,
            0x06 => StreamType::PrivatePes,
            0x07 => StreamType::Mheg,
            0x08 => StreamType::DsmCc,
            0x09 => StreamType::H2221,
            0x0A => StreamType::Dsmcc13818_6TypeA,
            0x0B => StreamType::Dsmcc13818_6TypeB,
            0x0C => StreamType::Dsmcc13818_6TypeC,
            0x0D => StreamType::Dsmcc13818_6TypeD,
            0x0E => StreamType::Auxiliary,
            0x0F => StreamType::AacAdts,
            0x10 => StreamType::Mpeg4Visual,
            0x11 => StreamType::AacLatm,
            0x12 => StreamType::Mpeg4SlPes,
            0x13 => StreamType::Mpeg4SlSections,
            0x14 => StreamType::SyncDownloadProtocol,
            0x15 => StreamType::MetadataPes,
            0x16 => StreamType::MetadataSections,
            0x17 => StreamType::MetadataDataCarousel,
            0x18 => StreamType::MetadataObjectCarousel,
            0x19 => StreamType::MetadataSyncDownload,
            0x1A => StreamType::Ipmp,
            0x1B => StreamType::AvcVideo,
            0x1C => StreamType::Mpeg4AudioRaw,
            0x1D => StreamType::Mpeg4Text,
            0x1E => StreamType::AuxiliaryVideo,
            0x1F => StreamType::SvcVideo,
            0x20 => StreamType::MvcVideo,
            0x21 => StreamType::Jpeg2000Video,
            0x22 => StreamType::Mpeg2StereoView,
            0x23 => StreamType::AvcStereoView,
            0x24 => StreamType::HevcVideo,
            0x25 => StreamType::HevcTemporalSubset,
            0x26 => StreamType::MvcdVideo,
            0x42 => StreamType::AvsVideo,
            0xEA => StreamType::Vc1Video,
            0x80 => StreamType::LpcmAudio,
            0x81 => StreamType::Ac3Audio,
            0x82 => StreamType::DtsAudio,
            0x83 => StreamType::TruehdAudio,
            0x84 => StreamType::EAc3Audio,
            0x85 => StreamType::DtsHdAudio,
            0x86 => StreamType::DtsHdMaAudio,
            0xA1 => StreamType::EAc3SecondaryAudio,
            0xA2 => StreamType::DtsHdSecondaryAudio,
            0x90 => StreamType::PgsSubtitle,
            0x91 => StreamType::IgsInteractive,
            0x92 => StreamType::TextSubtitle,
            other => StreamType::Other(other),
        }
    }

    /// The `stream_type` byte of a variant.
    pub fn as_raw(self) -> (r: u8)
        ensures
            r == self.raw(),
    {
        match self {
            StreamType::Mpeg1Video => 0x01,
            StreamType::Mpeg2Video => 0x02,
            StreamType::Mpeg1Audio => 0x03,
            StreamType::Mpeg2Audio => 0x04,
            StreamType::PrivateSections => 0x05,
            StreamType::PrivatePes => 0x06,
            StreamType::Mheg => 0x07,
            StreamType::DsmCc => 0x08,
            StreamType::H2221 => 0x09,
            StreamType::Dsmcc13818_6TypeA => 0x0A,
            StreamType::Dsmcc13818_6TypeB => 0x0B,
            StreamType::Dsmcc13818_6TypeC => 0x0C,
            StreamType::Dsmcc13818_6TypeD => 0x0D,
            StreamType::Auxiliary => 0x0E,
            StreamType::AacAdts => 0x0F,
            StreamType::Mpeg4Visual => 0x10,
            StreamType::AacLatm => 0x11,
            StreamType::Mpeg4SlPes => 0x12,
            StreamType::Mpeg4SlSections => 0x13,
            StreamType::SyncDownloadProtocol => 0x14,
            StreamType::MetadataPes => 0x15,
            StreamType::MetadataSections => 0x16,
            StreamType::MetadataDataCarousel => 0x17,
            StreamType::MetadataObjectCarousel => 0x18,
            StreamType::MetadataSyncDownload => 0x19,
            StreamType::Ipmp => 0x1A,
            StreamType::AvcVideo => 0x1B,
            StreamType::Mpeg4AudioRaw => 0x1C,
            StreamType::Mpeg4Text => 0x1D,
            StreamType::AuxiliaryVideo => 0x1E,
            StreamType::SvcVideo => 0x1F,
            StreamType::MvcVideo => 0x20,
            StreamType::Jpeg2000Video => 0x21,
            StreamType::Mpeg2StereoView => 0x22,
            StreamType::AvcStereoView => 0x23,
            StreamType::HevcVideo => 0x24,
            StreamType::HevcTemporalSubset => 0x25,
            StreamType::MvcdVideo => 0x26,
            StreamType::AvsVideo => 0x42,
            StreamType::Vc1Video => 0xEA,
            StreamType::LpcmAudio => 0x80,
            StreamType::Ac3Audio => 0x81,
            StreamType::DtsAudio => 0x82,
            StreamType::TruehdAudio => 0x83,
            StreamType::EAc3Audio => 0x84,
            StreamType::DtsHdAudio => 0x85,
            StreamType::DtsHdMaAudio => 0x86,
            StreamType::EAc3SecondaryAudio => 0xA1,
            StreamType::DtsHdSecondaryAudio => 0xA2,
            StreamType::PgsSubtitle => 0x90,
            StreamType::IgsInteractive => 0x91,
            StreamType::TextSubtitle => 0x92,
            StreamType::Other(b) => b,
        }
    }

    /// Carries video.
    pub open spec fn video(self) -> bool {
        match self {
            StreamType::Mpeg1Video
            | StreamType::Mpeg2Video
            | StreamType::Mpeg4Visual
            | StreamType::AvcVideo
            | StreamType::AuxiliaryVideo
            | StreamType::SvcVideo
            | StreamType::MvcVideo
            | StreamType::Jpeg2000Video
            | StreamType::Mpeg2StereoView
            | StreamType::AvcStereoView
            | StreamType::HevcVideo
            | StreamType::HevcTemporalSubset
            | StreamType::MvcdVideo
            | StreamType::AvsVideo
            | StreamType::Vc1Video => true,
            _ => false,
        }
    }

    /// Carries video.
    pub fn is_video(self) -> (r: bool)
        ensures
            r == self.video(),
    {
        match self {
            StreamType::Mpeg1Video
            | StreamType::Mpeg2Video
            | StreamType::Mpeg4Visual
            | StreamType::AvcVideo
            | StreamType::AuxiliaryVideo
            | StreamType::SvcVideo
            | StreamType::MvcVideo
            | StreamType::Jpeg2000Video
            | StreamType::Mpeg2StereoView
            | StreamType::AvcStereoView
            | StreamType::HevcVideo
            | StreamType::HevcTemporalSubset
            | StreamType::MvcdVideo
            | StreamType::AvsVideo
            | StreamType::Vc1Video => true,
            _ => false,
        }
    }

    /// Carries audio, primary or secondary.
    pub open spec fn audio(self) -> bool {
        match self {
            StreamType::Mpeg1Audio
            | StreamType::Mpeg2Audio
            | StreamType::AacAdts
            | StreamType::AacLatm
            | StreamType::Mpeg4AudioRaw
            | StreamType::LpcmAudio
            | StreamType::Ac3Audio
            | StreamType::DtsAudio
            | StreamType::TruehdAudio
            | StreamType::EAc3Audio
            | StreamType::DtsHdAudio
            | StreamType::DtsHdMaAudio
            | StreamType::EAc3SecondaryAudio
            | StreamType::DtsHdSecondaryAudio => true,
            _ => false,
        }
    }

    /// Carries audio, primary or secondary.
    pub fn is_audio(self) -> (r: bool)
        ensures
            r == self.audio(),
    {
        match self {
            StreamType::Mpeg1Audio
            | StreamType::Mpeg2Audio
            | StreamType::AacAdts
            | StreamType::AacLatm
            | StreamType::Mpeg4AudioRaw
            | StreamType::LpcmAudio
            | StreamType::Ac3Audio
            | StreamType::DtsAudio
            | StreamType::TruehdAudio
            | StreamType::EAc3Audio
            | StreamType::DtsHdAudio
            | StreamType::DtsHdMaAudio
            | StreamType::EAc3SecondaryAudio
            | StreamType::DtsHdSecondaryAudio => true,
            _ => false,
        }
    }

    /// Carries subtitles, captions or interactive graphics.
    pub open spec fn subtitle(self) -> bool {
        match self {
            StreamType::PgsSubtitle
            | StreamType::IgsInteractive
            | StreamType::TextSubtitle
            | StreamType::Mpeg4Text => true,
            _ => false,
        }
    }

    /// Carries subtitles, captions or interactive graphics.
    pub fn is_subtitle(self) -> (r: bool)
        ensures
            r == self.subtitle(),
    {
        match self {
            StreamType::PgsSubtitle
            | StreamType::IgsInteractive
            | StreamType::TextSubtitle
            | StreamType::Mpeg4Text => true,
            _ => false,
        }
    }

    /// Carries metadata.
    pub open spec fn metadata(self) -> bool {
        match self {
            StreamType::MetadataPes
            | StreamType::MetadataSections
            | StreamType::MetadataDataCarousel
            | StreamType::MetadataObjectCarousel
            | StreamType::MetadataSyncDownload => true,
            _ => false,
        }
    }

    /// Carries metadata.
    pub fn is_metadata(self) -> (r: bool)
        ensures
            r == self.metadata(),
    {
        match self {
            StreamType::MetadataPes
            | StreamType::MetadataSections
            | StreamType::MetadataDataCarousel
            | StreamType::MetadataObjectCarousel
            | StreamType::MetadataSyncDownload => true,
            _ => false,
        }
    }

    /// Needs the stream's descriptors to tell the codec.
    pub open spec fn private_data(self) -> bool {
        match self {
            StreamType::PrivateSections
            | StreamType::PrivatePes => true,
            _ => false,
        }
    }

    /// Needs the stream's descriptors to tell the codec.
    pub fn is_private(self) -> (r: bool)
        ensures
            r == self.private_data(),
    {
        match self {
            StreamType::PrivateSections
            | StreamType::PrivatePes => true,
            _ => false,
        }
    }

}

/// Each byte has exactly one canonical variant, so `from_raw` undoes `as_raw`.
pub proof fn lemma_canonical_unique(a: StreamType, b: StreamType)
    requires
        a.is_canonical(),
        b.is_canonical(),
        a.raw() == b.raw(),
    ensures
        a == b,
{
}

/// Every `stream_type` value has its meaning: the byte of each payload class, one by
/// one, and no other class has that byte.
pub proof fn lemma_bytes_name_classes(t: StreamType)
    requires
        t.is_canonical(),
    ensures
        t.raw() == 0x01 <==> t == StreamType::Mpeg1Video,
        t.raw() == 0x02 <==> t == StreamType::Mpeg2Video,
        t.raw() == 0x03 <==> t == StreamType::Mpeg1Audio,
        t.raw() == 0x04 <==> t == StreamType::Mpeg2Audio,
        t.raw() == 0x05 <==> t == StreamType::PrivateSections,
        t.raw() == 0x06 <==> t == StreamType::PrivatePes,
        t.raw() == 0x07 <==> t == StreamType::Mheg,
        t.raw() == 0x08 <==> t == StreamType::DsmCc,
        t.raw() == 0x09 <==> t == StreamType::H2221,
        t.raw() == 0x0A <==> t == StreamType::Dsmcc13818_6TypeA,
        t.raw() == 0x0B <==> t == StreamType::Dsmcc13818_6TypeB,
        t.raw() == 0x0C <==> t == StreamType::Dsmcc13818_6TypeC,
        t.raw() == 0x0D <==> t == StreamType::Dsmcc13818_6TypeD,
        t.raw() == 0x0E <==> t == StreamType::Auxiliary,
        t.raw() == 0x0F <==> t == StreamType::AacAdts,
        t.raw() == 0x10 <==> t == StreamType::Mpeg4Visual,
        t.raw() == 0x11 <==> t == StreamType::AacLatm,
        t.raw() == 0x12 <==> t == StreamType::Mpeg4SlPes,
        t.raw() == 0x13 <==> t == StreamType::Mpeg4SlSections,
        t.raw() == 0x14 <==> t == StreamType::SyncDownloadProtocol,
        t.raw() == 0x15 <==> t == StreamType::MetadataPes,
        t.raw() == 0x16 <==> t == StreamType::MetadataSections,
        t.raw() == 0x17 <==> t == StreamType::MetadataDataCarousel,
        t.raw() == 0x18 <==> t == StreamType::MetadataObjectCarousel,
        t.raw() == 0x19 <==> t == StreamType::MetadataSyncDownload,
        t.raw() == 0x1A <==> t == StreamType::Ipmp,
        t.raw() == 0x1B <==> t == StreamType::AvcVideo,
        t.raw() == 0x1C <==> t == StreamType::Mpeg4AudioRaw,
        t.raw() == 0x1D <==> t == StreamType::Mpeg4Text,
        t.raw() == 0x1E <==> t == StreamType::AuxiliaryVideo,
        t.raw() == 0x1F <==> t == StreamType::SvcVideo,
        t.raw() == 0x20 <==> t == StreamType::MvcVideo,
        t.raw() == 0x21 <==> t == StreamType::Jpeg2000Video,
        t.raw() == 0x22 <==> t == StreamType::Mpeg2StereoView,
        t.raw() == 0x23 <==> t == StreamType::AvcStereoView,
        t.raw() == 0x24 <==> t == StreamType::HevcVideo,
        t.raw() == 0x25 <==> t == StreamType::HevcTemporalSubset,
        t.raw() == 0x26 <==> t == StreamType::MvcdVideo,
        t.raw() == 0x42 <==> t == StreamType::AvsVideo,
        t.raw() == 0xEA <==> t == StreamType::Vc1Video,
        t.raw() == 0x80 <==> t == StreamType::LpcmAudio,
        t.raw() == 0x81 <==> t == StreamType::Ac3Audio,
        t.raw() == 0x82 <==> t == StreamType::DtsAudio,
        t.raw() == 0x83 <==> t == StreamType::TruehdAudio,
        t.raw() == 0x84 <==> t == StreamType::EAc3Audio,
        t.raw() == 0x85 <==> t == StreamType::DtsHdAudio,
        t.raw() == 0x86 <==> t == StreamType::DtsHdMaAudio,
        t.raw() == 0xA1 <==> t == StreamType::EAc3SecondaryAudio,
        t.raw() == 0xA2 <==> t == StreamType::DtsHdSecondaryAudio,
        t.raw() == 0x90 <==> t == StreamType::PgsSubtitle,
        t.raw() == 0x91 <==> t == StreamType::IgsInteractive,
        t.raw() == 0x92 <==> t == StreamType::TextSubtitle,
{
}

/// The classes go by the byte: which values are video, which audio, which
/// subtitles or graphics, which metadata and which private data.
pub proof fn lemma_classes_by_byte(t: StreamType)
    requires
        t.is_canonical(),
    ensures
        t.video() <==> {
            let b = t.raw();
            ||| b == 0x01 || b == 0x02 || b == 0x10 || b == 0x1B
            ||| 0x1E <= b <= 0x26
            ||| b == 0x42 || b == 0xEA
        },
        t.audio() <==> {
            let b = t.raw();
            ||| b == 0x03 || b == 0x04 || b == 0x0F || b == 0x11 || b == 0x1C
            ||| 0x80 <= b <= 0x86
            ||| b == 0xA1 || b == 0xA2
        },
        t.subtitle() <==> t.raw() == 0x1D || 0x90 <= t.raw() <= 0x92,
        t.metadata() <==> 0x15 <= t.raw() <= 0x19,
        t.private_data() <==> t.raw() == 0x05 || t.raw() == 0x06,
        t is Other <==> {
            let b = t.raw();
            ||| b == 0x00 || 0x27 <= b <= 0x41 || 0x43 <= b <= 0x7F
            ||| 0x87 <= b <= 0x8F || 0x93 <= b <= 0xA0
            ||| 0xA3 <= b <= 0xE9 || b >= 0xEB
        },
{
}

/// The `stream_type` byte is one of an audio stream.
pub open spec fn is_audio_byte(b: u8) -> bool {
    ||| b == 0x03 || b == 0x04
    ||| b == 0x0F || b == 0x11 || b == 0x1C
    ||| 0x80 <= b <= 0x86
    ||| b == 0xA1 || b == 0xA2
}

/// The class audio is one of the byte alone.
pub proof fn lemma_audio_by_byte(t: StreamType)
    requires
        t.is_canonical(),
    ensures
        t.audio() == is_audio_byte(t.raw()),
{
}

/// A stream is of at most one of the classes video, audio, subtitle, metadata
/// and private.
pub proof fn lemma_classes_disjoint(t: StreamType)
    ensures
        t.video() ==> !t.audio() && !t.subtitle() && !t.metadata() && !t.private_data(),
        t.audio() ==> !t.subtitle() && !t.metadata() && !t.private_data(),
        t.subtitle() ==> !t.metadata() && !t.private_data(),
        t.metadata() ==> !t.private_data(),
{
}

} // verus!
