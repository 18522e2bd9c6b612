//! A marshalling and invocation bridge between a statically typed,
//! schema-described interface and an implementation running inside an
//! embedded, dynamically typed scripting engine.
//!
//! The crate models scripting-engine values as plain data
//! ([`value::EncodedValue`]), so that the value codec, the resource-handle
//! lifecycle and the synchronous-call/asynchronous-implementation bridge are
//! verified; the engine itself stays behind the embedding layer, which
//! converts between the model and live engine values one-for-one.
//!
//! - [`schema`] and [`value`] define the data model: schema types, schema
//!   values, and the encoded-value model of the engine's value universe.
//! - [`codec`] encodes and decodes values against their schema types.
//! - [`resource`] is the registry of live resource handles with its pending
//!   drop queue; [`bridge`] drives an invocation and drains the queue only
//!   at the outermost return.
//! - [`registry`] holds the fixed set of host capability module names.
//! - [`laws`] states and proves the library's laws: the round trip, tag
//!   exhaustiveness, field-order insensitivity, resource identity, and the
//!   absence of premature drops.

pub mod bridge;
pub mod codec;
pub mod errors;
pub mod laws;
pub mod registry;
pub mod resource;
pub mod schema;
pub mod value;
