//! Embeds song lyrics into audio file metadata.

pub mod bytes;
pub mod cli;
pub mod fs_util;
pub mod http_client;
pub mod json;
pub mod laws;
pub mod lidarr;
pub mod logger;
pub mod lrclib;
pub mod metadata;
pub mod report;
pub mod sync;
pub mod text;
pub mod types;
pub mod walk;
