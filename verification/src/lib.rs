//! A prefix-free character coder.
//!
//! The library counts how often each character occurs in a text, builds a
//! weight-ordered forest of single-character leaves, merges the two lightest
//! entries until one tree remains, derives an 8-bit code value for every leaf
//! from the shape of that tree, and finally maps the text to the sequence of
//! code values, one per character.

pub mod builder;
pub mod codes;
pub mod encoder;
pub mod forest;
pub mod freq;
pub mod tree;
