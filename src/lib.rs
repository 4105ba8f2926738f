//! Serves versioned patch files: resolves a requested relative path to the
//! newest version that holds it, and encodes file contents into a
//! length-prefixed LZMA wire format.

pub mod encoding;
pub mod path;
pub mod patches;
pub mod request;
