//! Verified core of a small dense feed-forward network engine: activation
//! kinds and their names, the shape of a network's tensors, and the text
//! format in which a network is stored.

pub mod activations;
pub mod format;
pub mod nn;
pub mod roundtrip;
pub mod shape;
pub mod tensor;
pub mod text;
