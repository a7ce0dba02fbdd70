//! Decoding of a single GIF image frame.
//!
//! Two steps are offered, to be used one after the other: [`decode`] turns the
//! LZW-compressed sub-blocks of a frame into colour-table indices, and
//! [`fill_pixel`] paints those indices through a colour table onto a canvas
//! of packed 32-bit colours, honouring transparency and interlacing.
//!
//! Every function is stated against a mathematical model:
//!
//! - `blocks` and `bitstream` read the compressed data as a payload of bytes
//!   and the payload as a string of bits;
//! - `model` states the decoder as a state machine over the codes read from
//!   those bits, and `textbook` relates it to the dictionary of strings that
//!   LZW is usually explained with;
//! - `interlace` gives the order of the rows of an interlaced frame, and
//!   `canvas` the colour of every pixel after painting.
//!
//! `codes`, `table`, `decoder`, `compositor` and `frame` hold the code that
//! runs.

pub mod bitstream;
pub mod blocks;
pub mod canvas;
pub mod codes;
pub mod compositor;
pub mod decoder;
pub mod frame;
pub mod interlace;
pub mod model;
pub mod table;
pub mod textbook;

pub use compositor::fill_pixel;
pub use compositor::fill_pixels_interlaced;
pub use compositor::fill_pixels_simple;
pub use compositor::try_fill_pixel;
pub use decoder::decode;
pub use frame::decode_full;
