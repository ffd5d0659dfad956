//! Program-specific information and DVB service information: sections, tables
//! and their reassembly.
pub mod assembler;
pub mod assembly_laws;
pub mod crc;
pub mod dvb;
pub mod entries;
pub mod section;
pub mod section_laws;
pub mod table_laws;
pub mod tables;
pub mod time;

pub use assembler::PsiSectionAssembler;
pub use crc::mpeg2_crc32;
pub use dvb::{
    EitEvent, EventInformationTable, NetworkInformationTable, NitTransportStream, RunningStatus,
    SdtService, ServiceDescriptionTable, EIT_ACTUAL_PF_TABLE_ID, EIT_ACTUAL_SCHEDULE_FIRST,
    EIT_ACTUAL_SCHEDULE_LAST, EIT_OTHER_PF_TABLE_ID, EIT_OTHER_SCHEDULE_FIRST,
    EIT_OTHER_SCHEDULE_LAST, EIT_PID, NIT_ACTUAL_TABLE_ID, NIT_OTHER_TABLE_ID, NIT_PID,
    SDT_ACTUAL_TABLE_ID, SDT_OTHER_TABLE_ID, SDT_PID,
};
pub use section::{iter_sections, SectionIter, MAX_PSI_SECTION_LEN};
pub use tables::{
    ConditionalAccessTable, PmtStream, ProgramAssociationTable, ProgramMapTable,
    TransportStreamDescriptionTable, CAT_PID, CAT_TABLE_ID, PAT_PID, PAT_TABLE_ID, PMT_TABLE_ID,
    TSDT_PID, TSDT_TABLE_ID,
};
pub use time::{
    bcd_byte, decode_utc_time, EitDateTime, EitDuration, TimeDateTable, TimeOffsetTable,
    TDT_TABLE_ID, TDT_TOT_PID, TOT_TABLE_ID,
};
