//! What the operations of the library are for, stated from their inputs to their results.

pub mod calls;
pub mod comments;
pub mod formats;
pub mod http;
pub mod json;
pub mod log;
pub mod lookup;
pub mod mp3;
pub mod mp4;
pub mod mpeg;
pub mod ogg;
pub mod options;
pub mod sync;
pub mod text;
