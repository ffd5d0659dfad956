use oxideav_mpegts::stream_type::StreamType;

#[test]
fn round_trip_all_named_types() {
    for raw in [
        0x01u8, 0x02, 0x03, 0x04, 0x05, 0x06, 0x07, 0x08, 0x09, 0x0A, 0x0B, 0x0C, 0x0D, 0x0E,
        0x0F, 0x10, 0x11, 0x12, 0x13, 0x14, 0x15, 0x16, 0x17, 0x18, 0x19, 0x1A, 0x1B, 0x1C,
        0x1D, 0x1E, 0x1F, 0x20, 0x21, 0x22, 0x23, 0x24, 0x25, 0x26, 0x42, 0xEA, 0x80, 0x81,
        0x82, 0x83, 0x84, 0x85, 0x86, 0x90, 0x91, 0x92, 0xA1, 0xA2,
    ] {
        assert_eq!(
            StreamType::from_raw(raw).as_raw(),
            raw,
            "round-trip failed for 0x{raw:02X}"
        );
        // None of the named bytes should collapse into Other.
        assert!(
            !matches!(StreamType::from_raw(raw), StreamType::Other(_)),
            "0x{raw:02X} unexpectedly mapped to Other"
        );
    }
}

#[test]
fn reserved_range_passes_through_as_other() {
    // 0x27..=0x41 and 0x43..=0x7F are reserved; surface the raw byte.
    for raw in [0x27u8, 0x30, 0x41, 0x43, 0x77, 0x7F] {
        let s = StreamType::from_raw(raw);
        assert_eq!(s, StreamType::Other(raw));
        assert_eq!(s.as_raw(), raw);
        assert!(!s.is_video() && !s.is_audio() && !s.is_subtitle());
    }
}

#[test]
fn classification_video() {
    for s in [
        StreamType::Mpeg1Video,
        StreamType::Mpeg2Video,
        StreamType::Mpeg4Visual,
        StreamType::AvcVideo,
        StreamType::SvcVideo,
        StreamType::MvcVideo,
        StreamType::Jpeg2000Video,
        StreamType::HevcVideo,
        StreamType::AvsVideo,
        StreamType::Vc1Video,
    ] {
        assert!(s.is_video(), "{s:?} should be video");
        assert!(!s.is_audio() && !s.is_subtitle());
    }
}

#[test]
fn classification_audio() {
    for s in [
        StreamType::Mpeg1Audio,
        StreamType::Mpeg2Audio,
        StreamType::AacAdts,
        StreamType::AacLatm,
        StreamType::Mpeg4AudioRaw,
        StreamType::Ac3Audio,
        StreamType::DtsAudio,
        StreamType::EAc3Audio,
        StreamType::DtsHdMaAudio,
    ] {
        assert!(s.is_audio(), "{s:?} should be audio");
        assert!(!s.is_video() && !s.is_subtitle());
    }
}

#[test]
fn classification_subtitle_and_text() {
    for s in [
        StreamType::PgsSubtitle,
        StreamType::IgsInteractive,
        StreamType::TextSubtitle,
        StreamType::Mpeg4Text,
    ] {
        assert!(s.is_subtitle(), "{s:?} should be subtitle/text");
    }
}

#[test]
fn classification_metadata_and_private() {
    assert!(StreamType::MetadataPes.is_metadata());
    assert!(StreamType::MetadataObjectCarousel.is_metadata());
    assert!(!StreamType::AvcVideo.is_metadata());
    assert!(StreamType::PrivateSections.is_private());
    assert!(StreamType::PrivatePes.is_private());
    assert!(!StreamType::Ac3Audio.is_private());
}
