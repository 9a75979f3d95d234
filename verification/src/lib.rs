//! A segmented, indexable sequence container.
//!
//! Independently allocated segments are spliced into one logical sequence in
//! constant time, indexed through a prefix-sum table, and tracked by an
//! ownership table keyed by stable integer handles.

pub mod errors;
pub mod generic;
pub mod raw_buf;
pub mod nightly_generic;
pub mod primitive;

pub use errors::MutedError;
pub use generic::Data;
pub use generic::Muted;
pub use nightly_generic::Muted as UnionMuted;
pub use primitive::PrimitiveMuted;
pub use raw_buf::RawBuf;
