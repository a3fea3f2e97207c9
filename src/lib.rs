//! Reconstruction of files carried as QR-code packets in a video: packet
//! parsing, fountain decoding with temporal routing, frame-order merging of
//! per-chunk sidecars, chunk planning, completion and resume decisions.

pub mod checksum;
pub mod text;
pub mod codec;
pub mod packet;
pub mod fountain;
pub mod router;
pub mod merge;
pub mod plan;
pub mod completion;
pub mod resume_state;
pub mod events;
pub mod dedup;
pub mod integrity;
pub mod peel_laws;
