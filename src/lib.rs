//! A fixed-width packed integer array: `length` unsigned integers of `width`
//! bits each, stored back to back in a buffer of 64-bit words.
pub mod bits;
pub mod naive;
