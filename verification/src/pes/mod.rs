//! Packetized elementary streams: PES packets, their
//! optional header, and reassembly from transport packets.
pub mod encode;
pub mod parse;
pub mod reassemble;
pub mod round_trip;
pub mod trick_mode;
pub mod wire_laws;

pub use encode::PesHeaderSpec;
pub use parse::{
    decode_escr, decode_timestamp, has_optional_pes_header, PStdBuffer, PesExtension, PesPacket,
    ProgramPacketSequenceCounter,
};
pub use reassemble::PesReassembler;
pub use trick_mode::{CoefficientSelection, DsmTrickMode, FieldId};
