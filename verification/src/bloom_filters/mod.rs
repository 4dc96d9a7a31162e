//! Bloom filters over different stores of bits.

pub mod bit_stores;
pub mod bloom_filter_32_arr;
pub mod bloom_filter_prod;
pub mod bloom_filters_32_arr;
pub mod bloom_filters_32_bitvec;
pub mod hashers;
