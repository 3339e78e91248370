//! Content sniffing, relationship detection and run planning for folder indexing.

pub mod bytes;

pub mod text;
pub mod words;
pub mod gate;
pub mod html;
pub mod detect;
pub mod codec;
pub mod resources;
pub mod sniff;
pub mod classify;
pub mod scan;
pub mod bulk;
pub mod docx;
pub mod walk;
pub mod fsio;
pub mod resume;
pub mod pdf;
pub mod aliases;
pub mod status;
pub mod cluster;
pub mod schedule;
pub mod datamap;
