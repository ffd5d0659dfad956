//! MPEG-TS: packets, PES packets, tables and descriptors in
//! both directions, conformance validation, and a multiplexer.

pub mod bits;
pub mod build;
pub mod bytes;
pub mod clock;
pub mod descriptor;
pub mod descriptor_laws;
pub mod error;
pub mod muxer;
pub mod packet;
pub mod pes;
pub mod psi;
pub mod stream_type;
pub mod tstd;
pub mod validate;

pub use clock::PCR_MODULUS_27MHZ;
pub use error::TsError;
pub use packet::{
    detect_packet_layout, encode_clock_reference, iter_packets, AdaptationField,
    AdaptationFieldExtension, AdaptationFieldExtensionSpec, AdaptationFieldSpec, TsPacket,
    TsPacketIter, TsPacketLayout, TS_PACKET_LEN, TS_SYNC_BYTE,
};
pub use stream_type::StreamType;
pub use validate::validate_ts;
