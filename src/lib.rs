//! Decoding of CAN bus logs stored in Vector BLF containers into per-signal
//! time series, driven by DBC signal descriptions.

pub mod bytes;
pub mod systime;
pub mod blf_reader;
pub mod signal;
pub mod dbc;
pub mod decode;
pub mod decoder;
pub mod data_store;
pub mod metadata;
