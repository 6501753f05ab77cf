//! Serving a numeric compute function over a byte stream: the array wire
//! format (header grammar, padding, framing), an incremental reader for it,
//! and the per-connection session that ties reading, computing and writing
//! together.

pub mod array;
pub mod dtype;
pub mod error;
pub mod header;
pub mod header_lemmas;
pub mod io;
pub mod laws;
pub mod reader;
pub mod server;
pub mod text;
pub mod text_lemmas;
