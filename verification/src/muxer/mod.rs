//! The multiplexer: frames of elementary streams to transport-stream packets.
//!
//! Each program gets a PMT and a PCR PID of its own. Tables are written with the
//! header, at intervals, and with the trailer. A frame becomes one or more PES
//! packets, which are cut into packets; clock references go along with frames of
//! the PCR PID, and in packets of their own where the interval asks for it. Under
//! constant-rate pacing the byte position is the clock: null packets fill the
//! stream up, and no transport buffer overflows.
pub mod byte_clock;
pub mod call_laws;
pub mod clean;
pub mod clock_gaps;
pub mod clock_lag;
pub mod clocking;
pub mod config;
pub mod conformance;
pub mod counting;
pub mod deliver;
pub mod delivery_laws;
pub mod draining;
pub mod emit;
pub mod flow;
pub mod found;
pub mod frame;
pub mod frame_read_back;
pub mod home_laws;
pub mod laws;
pub mod layout_laws;
pub mod mux;
pub mod one_clock;
pub mod packets;
pub mod pes;
pub mod plan;
pub mod plan_laws;
pub mod policy_laws;
pub mod punctual;
pub mod read_back;
pub mod section_read_back;
pub mod session_conformance;
pub mod session_laws;
pub mod session_read_back;
pub mod settling;
pub mod si_laws;
pub mod splice_laws;
pub mod steady;
pub mod stream_read_back;
pub mod tidy;
pub mod well_formed;

pub use config::{
    iso639_code, stream_type_for_codec, EventSpec, MpegTsMuxConfig, MuxError, MuxPacket, MuxStream,
    NetworkSpec, ProgramSpec, SeamlessSpliceSpec, ServiceSpec, SpliceSpec,
};
pub use mux::MpegTsMuxer;
pub use flow::{Plan, ProgramPlan, Slot, TrackPlan};
pub use plan::build_es_descriptors;
