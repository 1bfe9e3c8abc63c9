//! Columnar compression for time-partitioned PostgreSQL tables: the verified
//! core of the extension.

pub mod bytes;
pub mod calendar;
pub mod crc;
pub mod decimal;
pub mod pg_types;
pub mod scan;
pub mod search;
pub mod segment_catalog;
pub mod segment_file;
pub mod segment_laws;
pub mod segment_reader;
pub mod sorting;
pub mod stats;
pub mod text;
pub mod timeparse;
pub mod timeparse_forms;
pub mod timeparse_laws;
pub mod timeparse_order;
pub mod trim;
