pub mod local;
pub mod s3;
