//! A verified HTTP byte-range toolkit: parsing `bytes=` range
//! specifiers against a known resource length into a normalized set of
//! byte intervals, and the decision logic of a range-aware file service
//! built on that parser.

pub mod file_server;
pub mod http_range;
pub mod text;
