//! A bzip2 codec and the decisions of its command line.
//!
//! Decoding is verified against a definition of the format written as `spec`
//! functions: `bits` reads numbers bit by bit, `huffman` holds
//! the canonical codes, `mtf` the move-to-front ranks and their runs, `bwt`
//! the inverse of the Burrows-Wheeler transform, `rle` the runs of equal
//! bytes, `rand` the legacy randomisation, `crc` the check values, `block`
//! one block, and `stream` whole inputs. `rotations` defines the transform
//! itself and proves that `bwt` undoes it. `writer` writes bits.
//!
//! Proved of the decoder, beyond what each function promises: two inputs
//! that decode, joined, decode to the bytes of both
//! (`stream::lemma_concatenation`); a flipped bit in the check value of a
//! block is found, and the failure carries both values
//! (`stream::lemma_crc_bit_flip`); input cut short fails, unless the cut lies
//! behind a stream (`stream::lemma_cut`); the inverse transform gives back every
//! block (`rotations::lemma_inverse_of_forward`); runs of rank zero of any
//! length are read back (`mtf::lemma_unpack_packed`,
//! `mtf::lemma_unpack_checked_packed`); and so are codes and tables of code
//! lengths, one by one and for a whole block (`huffman::lemma_table_read`,
//! `huffman::lemma_code_read`, `block::lemma_tables_read`,
//! `block::lemma_symbols_read`).
//!
//! Blocks are encoded by the `banzai` crate, reached through the one trusted
//! call in `encoder`. That call is made only on input that spares a byte
//! value; other input is handed over in pieces that do. The blocks that come
//! back are read and written into one stream: `encoder::compress` gives
//! bytes that are one stream and decode to the content of those blocks,
//! `encoder::compress_checked` gives them only where that content is the
//! input. Input that spares a value is one piece
//! (`encoder::lemma_spared_whole`), and its stream is the encoder's own
//! (`encoder::lemma_same_stream`); one stream cut short fails
//! (`encoder::lemma_stream_cut_fails`).
//!
//! `cli`, `plan`, `text` and `error` hold what the command line decides:
//! the mode of a run, the names of its outputs, and the wording of its
//! failures. Nothing here touches files or the terminal: callers hand in
//! bytes and names and get bytes, names and failures back.

pub mod text;
pub mod error;
pub mod cli;
pub mod plan;
pub mod bits;
pub mod crc;
pub mod huffman;
pub mod mtf;
pub mod bwt;
pub mod rotations;
pub mod rle;
pub mod rand;
pub mod block;
pub mod stream;
pub mod writer;
pub mod encoder;

pub use cli::{Bzip2Cli, LogLevel, Mode};
pub use encoder::{compress, compress_checked};
pub use error::{CodecError, Error};
pub use plan::{Job, Step};
pub use stream::{decompress, test_integrity};
