//! The write side of the tables and descriptors: sections from `table_id`
//! through the CRC, and descriptors from tag through data.
pub mod descriptor_read_back;
pub mod descriptors;
pub mod round_trip;
pub mod sections;
pub mod wire_laws;

pub use descriptors::{
    encode_utc_time, iso639_language_descriptor, network_name_descriptor, service_descriptor,
    service_list_descriptor, short_event_descriptor, stream_identifier_descriptor,
    teletext_descriptor,
};
pub use sections::{
    build_eit_pf, build_nit, build_pat, build_pmt, build_sdt, EitEventEntry, NitTsEntry,
    PmtStreamEntry, SdtServiceEntry,
};
