//! Configuration property store for a Java-style `key = value` properties
//! file, as used by the `magicutil` administration tool.
//!
//! The crate offers four pieces:
//! * a line parser for `key = value` entries (`parser`),
//! * a property mutator that applies a batch of set/remove mutations to a
//!   file's content while leaving every untouched line intact (`properties`),
//! * an overlay merge that applies one property file's values onto another
//!   (`overlay`),
//! * an AES-128-ECB codec with PKCS-style padding and a base64 wire form for
//!   encrypted property values (`codec`).
//!
//! Beside them stand the line splitter the store reads files with (`lines`),
//! the guarantees that relate several operations (`laws`), the closed error
//! kinds (`errors`), and two small helpers of the surrounding tool: the
//! service action table (`service_utils`) and the parser for the service
//! query tool's tabular output (`utils`).
//!
//! File and console I/O stay outside this crate: every function here works on
//! plain values (file content as a string, keys and values as strings).

pub mod codec;
pub mod errors;
pub mod laws;
pub mod lines;
pub mod overlay;
pub mod parser;
pub mod properties;
pub mod service_utils;
pub mod utils;

pub use errors::PropError;
pub use errors::PropErrorKind;
