//! An append-only flat-file store for fixed-width, ordered time-series records.
//!
//! The verified core: the record contract, the staging buffers that hold records
//! before they reach the record file, and the chunked search over committed bytes.
pub mod data;
pub mod record;
pub mod storage_buffer;
pub mod table;
