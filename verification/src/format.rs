//! The fixed records of an AVI header and how each is laid out in bytes.
//!
//! Every record is little-endian but for its four-character codes, which
//! are stored in file order. Each `parse` takes the bytes that were read
//! for the record; bytes behind the record are ignored, and a buffer that
//! is too short is an early end of the source.

use crate::bytes::{signed16, signed32, BigEndian, LittleEndian};
use crate::error::{AviError, ReadError};
use crate::fourcc::FourCC;
use crate::mmreg::{WAVE_FORMAT_EXTENSIBLE, WAVE_FORMAT_PCM};
use crate::riff::tag_at;
use vstd::prelude::*;

verus! {

/// The length of a main header in bytes.
pub const MAIN_HEADER_LEN: u32 = 56;

/// The length of a stream header in bytes.
pub const STREAM_HEADER_LEN: u32 = 56;

/// The length of a bitmap description in bytes.
pub const BITMAP_INFO_LEN: u32 = 40;

/// The least size that a chunk holding a waveform description declares.
pub const WAVE_INFO_MIN_LEN: u32 = 14;

/// The length of the part of a waveform description that every format has.
pub const WAVE_INFO_LEN: u32 = 16;

/// The length of the extension of an extensible waveform description.
pub const WAVE_EXTRA_LEN: u32 = 22;

/// The most bytes that a waveform description takes: the common part, the
/// size of what follows, and the extension.
pub const WAVE_INFO_MAX_LEN: u32 = 40;

/// The unsigned 32-bit value stored at `at`, least significant byte first.
pub open spec fn u32_at(b: Seq<u8>, at: int) -> u32 {
    LittleEndian::word32_at(b, at) as u32
}

/// The signed 32-bit value stored at `at`, least significant byte first.
pub open spec fn i32_at(b: Seq<u8>, at: int) -> i32 {
    signed32(LittleEndian::word32_at(b, at)) as i32
}

/// The unsigned 16-bit value stored at `at`, least significant byte first.
pub open spec fn u16_at(b: Seq<u8>, at: int) -> u16 {
    LittleEndian::word16_at(b, at) as u16
}

/// The signed 16-bit value stored at `at`, least significant byte first.
pub open spec fn i16_at(b: Seq<u8>, at: int) -> i16 {
    signed16(LittleEndian::word16_at(b, at)) as i16
}

/// A frame of a stream. Decoding frames is left to the caller.
#[derive(Clone, Copy, Debug, PartialEq, Eq)]
pub struct AviFrame {}

#[derive(Clone, Copy, Debug, PartialEq, Eq)]
pub struct Rect {
    pub left: i16,
    pub top: i16,
    pub right: i16,
    pub bottom: i16,
}

#[derive(Clone, Copy, Debug, PartialEq, Eq)]
pub struct Guid {
    pub data1: u32,
    pub data2: u16,
    pub data3: u16,
    pub data4: [u8; 8],
}

/// The main header, `avih`.
#[derive(Clone, Copy, Debug, PartialEq, Eq)]
pub struct AviMainHeader {
    pub dw_micro_sec_per_frame: u32,
    pub dw_max_bytes_per_sec: u32,
    pub dw_padding_granularity: u32,
    pub dw_flags: u32,
    pub dw_total_frames: u32,
    pub dw_initial_frames: u32,
    pub dw_streams: u32,
    pub dw_suggested_buffer_size: u32,
    pub dw_width: u32,
    pub dw_height: u32,
    pub dw_reserved: [u32; 4],
}

/// A stream header, `strh`.
#[derive(Clone, Copy, Debug, PartialEq, Eq)]
pub struct AviStreamHeader {
    pub fcc_type: FourCC,
    pub fcc_handler: FourCC,
    pub dw_flags: u32,
    pub w_priority: u16,
    pub w_language: u16,
    pub dw_initial_frames: u32,
    pub dw_scale: u32,
    pub dw_rate: u32,
    pub dw_start: u32,
    pub dw_length: u32,
    pub dw_suggested_buffer_size: u32,
    pub dw_quality: u32,
    pub dw_sample_size: u32,
    pub rc_frame: Rect,
}

/// The format of a video stream.
#[derive(Clone, Copy, Debug, PartialEq, Eq)]
pub struct AviBitmapInfo {
    pub bi_size: u32,
    pub bi_width: i32,
    pub bi_height: i32,
    pub bi_planes: u16,
    pub bi_bit_count: u16,
    pub bi_compression: u32,
    pub bi_size_image: u32,
    pub bi_x_pels_per_meter: i32,
    pub bi_y_pels_per_meter: i32,
    pub bi_clr_used: u32,
    pub bi_clr_important: u32,
}

/// The part of a waveform description that every format has, and the size
/// of what follows it, which every format but PCM stores.
#[derive(Clone, Copy, Debug, PartialEq, Eq)]
pub struct AviWaveInfo {
    pub w_format_tag: u16,
    pub n_channels: u16,
    pub n_samples_per_sec: u32,
    pub n_avg_bytes_per_sec: u32,
    pub n_block_align: u16,
    pub w_bits_per_sample: u16,
    pub cb_size: Option<u16>,
}

/// The extension of an extensible waveform description.
#[derive(Clone, Copy, Debug, PartialEq, Eq)]
pub struct AviWaveExtraInfo {
    /// Valid bits per sample, samples per block, or nothing: which of them
    /// depends on the sub-format.
    pub samples: u16,
    pub dw_channel_mask: u32,
    pub sub_format: Guid,
}

/// The format of an audio stream.
#[derive(Clone, Copy, Debug, PartialEq, Eq)]
pub struct AviWaveInfoExt {
    pub format: AviWaveInfo,
    pub extra: Option<AviWaveExtraInfo>,
}

/// The format of a stream, by the stream's kind.
#[derive(Clone, Copy, Debug, PartialEq, Eq)]
pub enum AviStreamFormat {
    Video(AviBitmapInfo),
    Audio(AviWaveInfoExt),
}

impl AviMainHeader {
    /// The four reserved words are zero.
    pub open spec fn wf(self) -> bool {
        self.dw_reserved@ == seq![0u32, 0u32, 0u32, 0u32]
    }

    /// The header that `b` holds. A header whose reserved words are not all
    /// zero is refused.
    pub open spec fn parsed(b: Seq<u8>) -> Result<AviMainHeader, ReadError> {
        if b.len() < MAIN_HEADER_LEN {
            Err(ReadError::UnexpectedEof)
        } else if u32_at(b, 40) != 0 || u32_at(b, 44) != 0 || u32_at(b, 48) != 0 || u32_at(b, 52)
            != 0 {
            Err(ReadError::Avi(AviError::InvalidMainHeader))
        } else {
            Ok(
                AviMainHeader {
                    dw_micro_sec_per_frame: u32_at(b, 0),
                    dw_max_bytes_per_sec: u32_at(b, 4),
                    dw_padding_granularity: u32_at(b, 8),
                    dw_flags: u32_at(b, 12),
                    dw_total_frames: u32_at(b, 16),
                    dw_initial_frames: u32_at(b, 20),
                    dw_streams: u32_at(b, 24),
                    dw_suggested_buffer_size: u32_at(b, 28),
                    dw_width: u32_at(b, 32),
                    dw_height: u32_at(b, 36),
                    dw_reserved: [0u32, 0u32, 0u32, 0u32],
                },
            )
        }
    }

    pub fn parse(buf: &[u8]) -> (r: Result<AviMainHeader, ReadError>)
        ensures
            r == Self::parsed(buf@),
            r matches Ok(h) ==> h.wf(),
    {
        if buf.len() < 56 {
            return Err(ReadError::UnexpectedEof);
        }
        if LittleEndian::read_u32(buf, 40) != 0 || LittleEndian::read_u32(buf, 44) != 0
            || LittleEndian::read_u32(buf, 48) != 0 || LittleEndian::read_u32(buf, 52) != 0 {
            return Err(ReadError::Avi(AviError::InvalidMainHeader));
        }
        let h = AviMainHeader {
            dw_micro_sec_per_frame: LittleEndian::read_u32(buf, 0),
            dw_max_bytes_per_sec: LittleEndian::read_u32(buf, 4),
            dw_padding_granularity: LittleEndian::read_u32(buf, 8),
            dw_flags: LittleEndian::read_u32(buf, 12),
            dw_total_frames: LittleEndian::read_u32(buf, 16),
            dw_initial_frames: LittleEndian::read_u32(buf, 20),
            dw_streams: LittleEndian::read_u32(buf, 24),
            dw_suggested_buffer_size: LittleEndian::read_u32(buf, 28),
            dw_width: LittleEndian::read_u32(buf, 32),
            dw_height: LittleEndian::read_u32(buf, 36),
            dw_reserved: [0u32, 0u32, 0u32, 0u32],
        };
        assert(h.dw_reserved@ =~= seq![0u32, 0u32, 0u32, 0u32]);
        Ok(h)
    }
}

impl AviStreamHeader {
    /// The header that `b` holds.
    pub open spec fn parsed(b: Seq<u8>) -> Result<AviStreamHeader, ReadError> {
        if b.len() < STREAM_HEADER_LEN {
            Err(ReadError::UnexpectedEof)
        } else {
            Ok(
                AviStreamHeader {
                    fcc_type: tag_at(b, 0),
                    fcc_handler: tag_at(b, 4),
                    dw_flags: u32_at(b, 8),
                    w_priority: u16_at(b, 12),
                    w_language: u16_at(b, 14),
                    dw_initial_frames: u32_at(b, 16),
                    dw_scale: u32_at(b, 20),
                    dw_rate: u32_at(b, 24),
                    dw_start: u32_at(b, 28),
                    dw_length: u32_at(b, 32),
                    dw_suggested_buffer_size: u32_at(b, 36),
                    dw_quality: u32_at(b, 40),
                    dw_sample_size: u32_at(b, 44),
                    rc_frame: Rect {
                        left: i16_at(b, 48),
                        top: i16_at(b, 50),
                        right: i16_at(b, 52),
                        bottom: i16_at(b, 54),
                    },
                },
            )
        }
    }

    pub fn parse(buf: &[u8]) -> (r: Result<AviStreamHeader, ReadError>)
        ensures
            r == Self::parsed(buf@),
    {
        if buf.len() < 56 {
            return Err(ReadError::UnexpectedEof);
        }
        Ok(
            AviStreamHeader {
                fcc_type: FourCC(BigEndian::read_u32(buf, 0)),
                fcc_handler: FourCC(BigEndian::read_u32(buf, 4)),
                dw_flags: LittleEndian::read_u32(buf, 8),
                w_priority: LittleEndian::read_u16(buf, 12),
                w_language: LittleEndian::read_u16(buf, 14),
                dw_initial_frames: LittleEndian::read_u32(buf, 16),
                dw_scale: LittleEndian::read_u32(buf, 20),
                dw_rate: LittleEndian::read_u32(buf, 24),
                dw_start: LittleEndian::read_u32(buf, 28),
                dw_length: LittleEndian::read_u32(buf, 32),
                dw_suggested_buffer_size: LittleEndian::read_u32(buf, 36),
                dw_quality: LittleEndian::read_u32(buf, 40),
                dw_sample_size: LittleEndian::read_u32(buf, 44),
                rc_frame: Rect {
                    left: LittleEndian::read_i16(buf, 48),
                    top: LittleEndian::read_i16(buf, 50),
                    right: LittleEndian::read_i16(buf, 52),
                    bottom: LittleEndian::read_i16(buf, 54),
                },
            },
        )
    }
}

impl AviBitmapInfo {
    /// The description that `b` holds.
    pub open spec fn parsed(b: Seq<u8>) -> Result<AviBitmapInfo, ReadError> {
        if b.len() < BITMAP_INFO_LEN {
            Err(ReadError::UnexpectedEof)
        } else {
            Ok(
                AviBitmapInfo {
                    bi_size: u32_at(b, 0),
                    bi_width: i32_at(b, 4),
                    bi_height: i32_at(b, 8),
                    bi_planes: u16_at(b, 12),
                    bi_bit_count: u16_at(b, 14),
                    bi_compression: u32_at(b, 16),
                    bi_size_image: u32_at(b, 20),
                    bi_x_pels_per_meter: i32_at(b, 24),
                    bi_y_pels_per_meter: i32_at(b, 28),
                    bi_clr_used: u32_at(b, 32),
                    bi_clr_important: u32_at(b, 36),
                },
            )
        }
    }

    pub fn parse(buf: &[u8]) -> (r: Result<AviBitmapInfo, ReadError>)
        ensures
            r == Self::parsed(buf@),
    {
        if buf.len() < 40 {
            return Err(ReadError::UnexpectedEof);
        }
        Ok(
            AviBitmapInfo {
                bi_size: LittleEndian::read_u32(buf, 0),
                bi_width: LittleEndian::read_i32(buf, 4),
                bi_height: LittleEndian::read_i32(buf, 8),
                bi_planes: LittleEndian::read_u16(buf, 12),
                bi_bit_count: LittleEndian::read_u16(buf, 14),
                bi_compression: LittleEndian::read_u32(buf, 16),
                bi_size_image: LittleEndian::read_u32(buf, 20),
                bi_x_pels_per_meter: LittleEndian::read_i32(buf, 24),
                bi_y_pels_per_meter: LittleEndian::read_i32(buf, 28),
                bi_clr_used: LittleEndian::read_u32(buf, 32),
                bi_clr_important: LittleEndian::read_u32(buf, 36),
            },
        )
    }
}

impl AviWaveInfo {
    /// The number of bytes that a description with this format tag takes,
    /// the size field behind it included.
    pub open spec fn len_for(format_tag: u16) -> int {
        if format_tag == WAVE_FORMAT_PCM {
            16
        } else {
            18
        }
    }

    /// The description that `b` holds. The two bytes behind the common part
    /// are read for every format but PCM.
    pub open spec fn parsed(b: Seq<u8>) -> Result<AviWaveInfo, ReadError> {
        if b.len() < WAVE_INFO_LEN || b.len() < Self::len_for(u16_at(b, 0)) {
            Err(ReadError::UnexpectedEof)
        } else {
            Ok(
                AviWaveInfo {
                    w_format_tag: u16_at(b, 0),
                    n_channels: u16_at(b, 2),
                    n_samples_per_sec: u32_at(b, 4),
                    n_avg_bytes_per_sec: u32_at(b, 8),
                    n_block_align: u16_at(b, 12),
                    w_bits_per_sample: u16_at(b, 14),
                    cb_size: if u16_at(b, 0) == WAVE_FORMAT_PCM {
                        None
                    } else {
                        Some(u16_at(b, 16))
                    },
                },
            )
        }
    }

    pub fn parse(buf: &[u8]) -> (r: Result<AviWaveInfo, ReadError>)
        ensures
            r == Self::parsed(buf@),
    {
        if buf.len() < 16 {
            return Err(ReadError::UnexpectedEof);
        }
        let w_format_tag = LittleEndian::read_u16(buf, 0);
        let cb_size = if w_format_tag != WAVE_FORMAT_PCM {
            if buf.len() < 18 {
                return Err(ReadError::UnexpectedEof);
            }
            Some(LittleEndian::read_u16(buf, 16))
        } else {
            None
        };
        Ok(
            AviWaveInfo {
                w_format_tag,
                n_channels: LittleEndian::read_u16(buf, 2),
                n_samples_per_sec: LittleEndian::read_u32(buf, 4),
                n_avg_bytes_per_sec: LittleEndian::read_u32(buf, 8),
                n_block_align: LittleEndian::read_u16(buf, 12),
                w_bits_per_sample: LittleEndian::read_u16(buf, 14),
                cb_size,
            },
        )
    }
}

impl AviWaveExtraInfo {
    /// The extension stored at offset 18 of `b`, behind the common part and
    /// the size field.
    pub open spec fn parsed(b: Seq<u8>) -> Result<AviWaveExtraInfo, ReadError> {
        if b.len() < WAVE_INFO_MAX_LEN {
            Err(ReadError::UnexpectedEof)
        } else {
            Ok(
                AviWaveExtraInfo {
                    samples: u16_at(b, 18),
                    dw_channel_mask: u32_at(b, 20),
                    sub_format: Guid {
                        data1: u32_at(b, 24),
                        data2: u16_at(b, 28),
                        data3: u16_at(b, 30),
                        data4: [b[32], b[33], b[34], b[35], b[36], b[37], b[38], b[39]],
                    },
                },
            )
        }
    }

    pub fn parse(buf: &[u8]) -> (r: Result<AviWaveExtraInfo, ReadError>)
        ensures
            r == Self::parsed(buf@),
    {
        if buf.len() < 40 {
            return Err(ReadError::UnexpectedEof);
        }
        let data4: [u8; 8] = [
            buf[32],
            buf[33],
            buf[34],
            buf[35],
            buf[36],
            buf[37],
            buf[38],
            buf[39],
        ];
        let ghost b = buf@;
        assert(data4 =~= [b[32], b[33], b[34], b[35], b[36], b[37], b[38], b[39]]);
        Ok(
            AviWaveExtraInfo {
                samples: LittleEndian::read_u16(buf, 18),
                dw_channel_mask: LittleEndian::read_u32(buf, 20),
                sub_format: Guid {
                    data1: LittleEndian::read_u32(buf, 24),
                    data2: LittleEndian::read_u16(buf, 28),
                    data3: LittleEndian::read_u16(buf, 30),
                    data4,
                },
            },
        )
    }
}

impl AviWaveInfoExt {
    /// The description that `b` holds: the common part, then, for the
    /// extensible format alone, the extension.
    pub open spec fn parsed(b: Seq<u8>) -> Result<AviWaveInfoExt, ReadError> {
        match AviWaveInfo::parsed(b) {
            Err(e) => Err(e),
            Ok(format) => if format.w_format_tag == WAVE_FORMAT_EXTENSIBLE {
                match AviWaveExtraInfo::parsed(b) {
                    Err(e) => Err(e),
                    Ok(extra) => Ok(AviWaveInfoExt { format, extra: Some(extra) }),
                }
            } else {
                Ok(AviWaveInfoExt { format, extra: None })
            },
        }
    }

    pub fn parse(buf: &[u8]) -> (r: Result<AviWaveInfoExt, ReadError>)
        ensures
            r == Self::parsed(buf@),
    {
        let format = match AviWaveInfo::parse(buf) {
            Err(e) => {
                return Err(e);
            },
            Ok(f) => f,
        };
        if format.w_format_tag == WAVE_FORMAT_EXTENSIBLE {
            match AviWaveExtraInfo::parse(buf) {
                Err(e) => Err(e),
                Ok(extra) => Ok(AviWaveInfoExt { format, extra: Some(extra) }),
            }
        } else {
            Ok(AviWaveInfoExt { format, extra: None })
        }
    }
}

} // verus!
