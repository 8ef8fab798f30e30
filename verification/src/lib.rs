//! Archive and index downloaded files: the verified core.

pub mod text;
pub mod calendar;
pub mod digest;
pub mod path;
pub mod ingest;
pub mod search;
