//! Bitstream format converter for H.264 video: parses length-prefixed
//! NAL units and codec configuration records, rewrites packet streams
//! into Annex-B form with parameter sets inserted ahead of key pictures
//! exactly when required, and converts Annex-B buffers back to
//! length-prefixed framing.

pub mod annexb;
pub mod avcc;
pub mod converter;
pub mod framing;
pub mod nal;
pub mod roundtrip;
