//! A parallel file synchroniser: rolling-checksum deltas, filter rules, the
//! wire protocol and the decisions of a sync run, each proved against its
//! contract. Reading and writing files, sockets and terminals is left to the
//! program around this library.

pub mod checksum;
pub mod cli;
pub mod delta;
pub mod filter;
pub mod flist;
pub mod local;
pub mod one_file;
pub mod paths;
pub mod pipeline;
pub mod protocol;
pub mod stream;
pub mod text;
pub mod transfer;
pub mod transport;
pub mod tui;
pub mod wire;
