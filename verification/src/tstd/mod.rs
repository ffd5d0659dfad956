//! The Transport Stream system target decoder: its parameters, the
//! arrival schedule that clock references imply, and the split of a packet into
//! what each of its buffers receives.
pub mod arrival;
pub mod laws;
pub mod model;
pub mod scan;

pub use arrival::{arrival_schedule, pcr_samples, ArrivalClock, PcrSample, RateInterval};
pub use model::{
    Route, TStdBranch, TStdConfig, TStdStreamModel, AUDIO_MAIN_BUFFER_SIZE, AUDIO_RX_BPS, BSYS_SIZE,
    RSYS_MIN_BPS, RXSYS_BPS, TB_SIZE,
};
pub use scan::{packet_pieces, ByteClass, ClassifiedRun, PesScanner};
