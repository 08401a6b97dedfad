//! Waveform format tags.

use vstd::prelude::*;

verus! {

/// Plain pulse-code modulation.
pub const WAVE_FORMAT_PCM: u16 = 0x0001;

/// A format described by an extension that names a sub-format.
pub const WAVE_FORMAT_EXTENSIBLE: u16 = 0xFFFE;

} // verus!
