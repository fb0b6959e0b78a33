//! Packs a tree of script sources into a single native executable.
//!
//! At packaging time the files are encoded as three byte streams (a path
//! table, an offset table and a content blob) and emitted, together with a
//! load-path string, as data symbols of a relocatable object file. At run
//! time, inside the packaged executable, a resolver answers from the same
//! streams which bytes a path stands for.
//!
//! - [`bytes`]: byte strings cut at a separator and joined again.
//! - [`codec`]: the layout of the streams.
//! - [`container`]: a container under construction, and a packaging run.
//! - [`emitter`]: the object file that carries a container.
//! - [`path`]: lexical normalization of paths.
//! - [`fs`]: the resolver.
//! - [`roundtrip`]: what is packed is what is resolved.
//! - [`archive`]: the members of a static archive that the link step takes.

pub mod archive;
pub mod bytes;
pub mod codec;
pub mod container;
pub mod emitter;
pub mod fs;
pub mod path;
pub mod roundtrip;
