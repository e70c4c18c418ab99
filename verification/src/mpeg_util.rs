//! What the transcoding stage is told: the chapters of a book and the
//! settings of the MP3 encoder.

use crate::tags::AppleTags;
use vstd::prelude::*;

verus! {

/// A point in time: whole seconds and 75ths of a second, the frames of a
/// cue sheet.
#[derive(Debug, Clone, Copy, PartialEq, Eq, Structural)]
pub struct ChapterTime {
    pub seconds: u64,
    pub frames: u64,
}

/// A chapter: its title and where it starts.
#[derive(Debug, Clone, PartialEq, Eq)]
pub struct Chapter {
    pub title: String,
    pub start_time: ChapterTime,
}

/// The chapters of a book, in playing order.
#[derive(Debug, Clone, PartialEq, Eq)]
pub struct ChapterInfo {
    pub chapters: Vec<Chapter>,
}

/// The sample rate of the decrypted audio, in hertz.
pub const SOURCE_SAMPLE_RATE: u32 = 44100;

/// The number of channels of the decrypted audio.
pub const SOURCE_CHANNELS: u8 = 2;

/// The bit rate of the decrypted audio, in bits per second.
pub const SOURCE_BITRATE: u32 = 128000;

/// The best encoder quality on LAME's scale from 0 to 9.
pub const QUALITY_BEST: u8 = 0;

/// The settings of the MP3 encoder.
#[derive(Debug, Clone, Copy, PartialEq, Eq, Structural)]
pub struct LameOptions {
    pub sample_rate: u32,
    pub num_channels: u8,
    /// The constant bit rate in kilobits per second, or `None` for the
    /// encoder's own choice.
    pub bitrate_kbps: Option<u16>,
    /// The quality on LAME's scale from 0, the best, to 9.
    pub quality: u8,
}

/// The encoder bit rate for a source of `kbps` kilobits per second: the
/// same rate where the encoder offers it from 32 up, 64 for 56, and 128 for
/// any other.
pub open spec fn spec_bitrate_for(kbps: u32) -> u16 {
    if kbps == 320 || kbps == 256 || kbps == 224 || kbps == 192 || kbps == 160 || kbps == 128
        || kbps == 112 || kbps == 96 || kbps == 80 || kbps == 64 || kbps == 48 || kbps == 40
        || kbps == 32 {
        kbps as u16
    } else if kbps == 56 {
        64
    } else {
        128
    }
}

/// The settings for a book: stereo is mixed down to one channel on
/// request, and the bit rate follows the source on request.
pub open spec fn spec_lame_options(downsample: bool, match_source_bitrate: bool) -> LameOptions {
    LameOptions {
        sample_rate: SOURCE_SAMPLE_RATE,
        num_channels: if downsample && SOURCE_CHANNELS == 2 {
            1
        } else {
            SOURCE_CHANNELS
        },
        bitrate_kbps: if match_source_bitrate {
            Some(spec_bitrate_for(SOURCE_BITRATE / 1000))
        } else {
            None
        },
        quality: QUALITY_BEST,
    }
}

/// Picks the encoder bit rate for a source of `kbps` kilobits per second.
pub fn bitrate_for(kbps: u32) -> (r: u16)
    ensures
        r == spec_bitrate_for(kbps),
{
    match kbps {
        320 => 320,
        256 => 256,
        224 => 224,
        192 => 192,
        160 => 160,
        128 => 128,
        112 => 112,
        96 => 96,
        80 => 80,
        64 => 64,
        56 => 64,
        48 => 48,
        40 => 40,
        32 => 32,
        _ => 128,
    }
}

/// Decides the settings of the MP3 encoder for a book. Tags and chapters do
/// not bear on them.
pub fn configure_lame_options(
    _apple_tags: &AppleTags,
    downsample: bool,
    match_source_bitrate: bool,
    _chapters: &ChapterInfo,
) -> (r: LameOptions)
    ensures
        r == spec_lame_options(downsample, match_source_bitrate),
{
    let num_channels: u8 = if downsample && SOURCE_CHANNELS == 2 {
        1
    } else {
        SOURCE_CHANNELS
    };
    let bitrate_kbps: Option<u16> = if match_source_bitrate {
        Some(bitrate_for(SOURCE_BITRATE / 1000))
    } else {
        None
    };
    LameOptions {
        sample_rate: SOURCE_SAMPLE_RATE,
        num_channels,
        bitrate_kbps,
        quality: QUALITY_BEST,
    }
}

} // verus!
