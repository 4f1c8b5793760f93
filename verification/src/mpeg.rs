//! MPEG-1 program streams held in memory.

pub mod audio;
pub mod buffer;
pub mod demux;
pub mod video;
pub mod video_tables;
