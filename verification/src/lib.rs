//! Reading, writing, quantizing and validating GGUF model containers.
//!
//! Every function works on values in memory: a container is a byte string,
//! and a float is the bit pattern of its IEEE 754 encoding. The library
//! does no floating-point arithmetic: where a float has to be computed, the
//! caller hands in the function that computes it.
//!
//! - [`types`], [`metadata`]: the values that a container holds.
//! - [`wire`], [`writer`], [`reader`], [`roundtrip`]: the layout of a
//!   container, writing and reading it, and the proof that what is written
//!   reads back.
//! - [`decoder`], [`quantize`], [`codec`]: the payloads of tensors, as raw
//!   floats and as blocks of 4-bit and 5-bit levels.
//! - [`ingest`], [`config`]: tensors from safetensors blobs, metadata from
//!   JSON.
//! - [`validate`], [`inspect`]: checks and overviews of a container.
//! - [`le`], [`text`]: little-endian numbers and UTF-8 strings.

pub mod codec;
pub mod config;
pub mod decoder;
pub mod ingest;
pub mod inspect;
pub mod le;
pub mod metadata;
pub mod quantize;
pub mod reader;
pub mod roundtrip;
pub mod text;
pub mod types;
pub mod validate;
pub mod wire;
pub mod writer;
