//! 188-byte transport-stream packets: parsing, the
//! write side of the adaptation field, and the physical framings that carry
//! packets.
pub mod encode;
pub mod layout;
pub mod parse;
pub mod round_trip;
pub mod wire_laws;

pub use encode::{encode_clock_reference, AdaptationFieldExtensionSpec, AdaptationFieldSpec};
pub use layout::{detect_packet_layout, iter_packets, TsPacketIter, TsPacketLayout};
pub use parse::{
    AdaptationField, AdaptationFieldExtension, TsPacket, MAX_ADAPTATION_FIELD_LEN, TS_PACKET_LEN,
    TS_SYNC_BYTE,
};
