pub mod clone;
pub mod gc;
pub mod init;
pub mod ls_files;
pub mod status;
pub mod track;
pub mod untrack;
