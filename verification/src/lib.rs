//! Verified compression codecs: a Huffman coder with a bit-exact wire format,
//! an LZ77 sliding-window coder, an LZW dictionary coder, and a predictive
//! image coder, all sharing one bit-level reader/writer.

use vstd::prelude::*;

pub mod bit_io;
pub mod huffman;
pub mod lz77;
pub mod lzw;
pub mod predictiv;
pub mod tree;

pub use bit_io::BitReader;
pub use bit_io::BitWriter;
pub use huffman::CompressionStats;
pub use huffman::Huffman;
pub use huffman::lemma_compress_deterministic;
pub use huffman::lemma_header_accounting;
pub use huffman::lemma_prefix_free;
pub use huffman::lemma_round_trip;
pub use lz77::LZ77;
pub use lz77::Token;
pub use lz77::extract_original_filename;
pub use lzw::LZW;
pub use predictiv::Histogram;
pub use predictiv::MyCustomImage;
pub use predictiv::Predictiv;
pub use predictiv::Predictor;
pub use predictiv::PredictivError;
pub use predictiv::build_bmp;
pub use predictiv::compute_histogram;
pub use predictiv::get_error_data;
pub use predictiv::get_header_data;
pub use predictiv::get_prediction_matrix;
pub use predictiv::get_prediction_type;
pub use predictiv::get_predictor;
pub use predictiv::predict;
pub use predictiv::reconstruct_image;
pub use tree::Node;
pub use tree::Symbol;

verus! {

} // verus!
