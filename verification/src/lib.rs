//! A codec for the ZeroFormatter wire format: little-endian values written at
//! absolute offsets of a seekable byte buffer, with indexed objects whose
//! offset tables let readers and writers of different schema versions meet.
//!
//! A [`Buffer`] holds the bytes. Values whose type tells their shape are
//! written and read through [`Formatter`]: integers, `bool`, `String`,
//! points and spans of time, pairs, `Vec` and `Option` of these. Values whose
//! shape is only known when the program runs are a [`value::Value`], read
//! against a [`schema::Shape`] with [`Buffer::decode`] and written with
//! [`Buffer::encode`]. Both write the same bytes: [`agree::AsValue`] says
//! which value a typed value is. The module [`laws`] states what holds of
//! the format as a whole.

pub mod agree;
pub mod buffer;
pub mod codec;
pub mod conform;
pub mod decode;
pub mod encode;
pub mod endian;
pub mod error;
pub mod formatter;
pub mod has_value;
pub mod laws;
pub mod object;
pub mod parse;
pub mod primitive;
pub mod round_trip;
pub mod schema;
pub mod sequence;
pub mod sound;
pub mod time;
pub mod tuple;
pub mod util;
pub mod value;
pub mod wire;

pub use buffer::Buffer;
pub use error::ZeroFormatterError;
pub use error::ZeroFormatterResult;
pub use formatter::Formatter;
