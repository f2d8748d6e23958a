//! HuffYUV / FFVHuff lossless video codec.
//!
//! A stream has a header ([`header`], [`strf`]) that names its pixel family, its
//! method and its codebooks ([`tables`], [`classic`], [`v1x`]). A frame of it holds
//! its first pixel and the codewords of its residuals ([`residuals`], [`emit`]),
//! which prediction ([`predict`]) makes of the other pixels. Frames taller than 288
//! rows come as two fields. [`encoder`] and [`decoder`] turn rasters into frames and
//! back, without loss ([`lossless`]); [`registry`] does so for whole streams.

pub mod avi;
pub mod avi_laws;
pub mod bit_laws;
pub mod bitio;
pub mod bitreader;
pub mod bits;
pub mod bitwriter;
pub mod canonical;
pub mod classic;
pub mod code_laws;
pub mod code_lengths;
pub mod cost;
pub mod decoder;
pub mod emit;
pub mod encode_laws;
pub mod encoder;
pub mod error;
pub mod extradata;
pub mod extradata_laws;
pub mod frame_laws;
pub mod header;
pub mod header_laws;
pub mod huffman;
pub mod joining_cost;
pub mod layout;
pub mod length_builder;
pub mod lossless;
pub mod package_merge;
pub mod predict;
pub mod predictor;
pub mod registry;
pub mod registry_laws;
pub mod residuals;
pub mod rle;
pub mod rle_encode;
pub mod row_laws;
pub mod strf;
pub mod tables;
pub mod tally;
pub mod v1x;

pub use crate::decoder::{decode_frame, DecodedFrame};
pub use crate::encoder::{
    build_bitmapinfoheader, encode_frame, encode_frame_with_mode, ExtradataMode,
};
pub use crate::error::{Error, Result};
pub use crate::header::{Method, PixelFamily, Predictor, StreamConfig};
pub use crate::registry::CODEC_ID_STR;
