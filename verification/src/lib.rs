//! Storage abstractions for content-addressable data.
//!
//! The [`kv`] module defines validated keys, the weakly and the strongly
//! consistent key/value store interfaces and an in-memory store. The [`odb`]
//! module layers a content-addressable object database on top of them, and
//! [`hex`] writes bytes as the hexadecimal text that keys are made of.

pub mod hex;
pub mod kv;
pub mod odb;
