//! Verified core of a minimal record-keeping service spoken over a
//! hand-written HTTP transport.
//!
//! The crate is organised leaves-first:
//! - [`scan`]: locates and extracts syntactic units (objects, quoted strings,
//!   booleans, unsigned integers) from raw JSON-like text, byte by byte.
//! - [`models`]: the stored record and its change history.
//! - [`persist`]: the persisted text format — rendering a collection to a
//!   single JSON array, and reading it back with the scanner.
//! - [`request`]: turns a received byte stream into a structured request.
//! - [`response`]: renders a status/headers/body triple into wire bytes.
//! - [`router`]: matches a request to a registered handler by method and path.
//! - [`store`]: the in-memory record collection with create/read/list/update/
//!   delete and change capture.
//! - [`api`]: the service itself, dispatching parsed requests to store
//!   operations and producing responses.
//! - [`laws`]: properties of the whole, stated and proved once over the
//!   specifications the modules' contracts use.
//!
//! All text is handled as raw bytes (`Vec<u8>` / `Seq<u8>`): every delimiter
//! the formats use is ASCII, so byte-level scanning agrees with the textual
//! description on any UTF-8 input.

pub mod api;
pub mod laws;
pub mod models;
pub mod persist;
pub mod request;
pub mod response;
pub mod router;
pub mod scan;
pub mod store;
