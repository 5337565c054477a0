pub mod pktline;
pub mod process;
