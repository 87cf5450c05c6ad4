//! The Wwise side of an archive: TOC headers, sound banks and their chunks,
//! the HIRC hierarchy and the audio, video and text resources.

pub mod archive;
pub mod bank;
pub mod base_param;
pub mod containers;
pub mod hierarchy;
pub mod load;
pub mod music_segment;
pub mod music_track;
pub mod params;
pub mod pool;
pub mod readback;
pub mod sound;
pub mod sources;
pub mod text_bank;
pub mod toc;

use vstd::prelude::*;

verus! {

/// Wwise plugin id for Vorbis-encoded sources.
pub const VORBIS: u32 = 0x0004_0001;
/// Wwise plugin id for "Rev Audio" (custom FX) sources.
pub const REV_AUDIO: u32 = 0x01A0_1052;
/// XOR key the BKHD chunk's version field is obfuscated with.
pub const BANK_VERSION_KEY: u32 = 0x9211_BCAC;

} // verus!
