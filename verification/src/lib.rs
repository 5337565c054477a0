//! HFS: content-defined chunking, a content-addressable store, pointer files
//! and the Git pkt-line filter protocol, with contracts proved by Verus.

pub mod error;
pub mod text;
pub mod cas;
pub mod pointer;
pub mod filter;
pub mod manifest;
pub mod transfer;
pub mod config;
pub mod backend;
pub mod cli;
