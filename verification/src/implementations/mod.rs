//! Implementations of the consistent hash ring.

pub mod chr_vec;
