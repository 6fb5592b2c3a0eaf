//! Verified core of a single-threaded fastText inference engine: tokenisation,
//! subword hashing, the binary model format, the hierarchical-softmax label
//! tree and the integer feature pipeline that feeds the floating-point head.

pub mod tokenize;
pub mod huffman;
pub mod dict;
pub mod format;
pub mod model;
pub mod features;
pub mod filter;
