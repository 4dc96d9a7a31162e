//! The SeaHash function, as the rest of the library sees it.

use vstd::prelude::*;

verus! {

/// The SeaHash value of `buf` under the four seed words `a`, `b`, `c`, `d`.
///
/// SeaHash is portable: the value depends on the bytes and the seed words
/// alone, not on the machine or the process.
pub uninterp spec fn seahash_seeded(buf: Seq<u8>, a: u64, b: u64, c: u64, d: u64) -> u64;

/// `seahash::hash_seeded` returns the SeaHash value of the buffer under the
/// given seed words. Nothing else is claimed of it.
pub assume_specification[ seahash::hash_seeded ](buf: &[u8], a: u64, b: u64, c: u64, d: u64) -> (h:
    u64)
    ensures
        h == seahash_seeded(buf@, a, b, c, d),
;

/// `seahash::hash` is `seahash::hash_seeded` under the four seed words that
/// the crate fixes for it.
pub assume_specification[ seahash::hash ](buf: &[u8]) -> (h: u64)
    ensures
        h == seahash_seeded(
            buf@,
            0x16f11fe89b0d677c,
            0xb480a793d8e6c86c,
            0x6fe2e5aaf078ebc9,
            0x14f994a4c5259381,
        ),
;

/// The SeaHash value of a string's UTF-8 bytes under the default seed words.
pub open spec fn seahash_of(key: Seq<char>) -> u64 {
    seahash_seeded(
        vstd::utf8::encode_utf8(key),
        0x16f11fe89b0d677c,
        0xb480a793d8e6c86c,
        0x6fe2e5aaf078ebc9,
        0x14f994a4c5259381,
    )
}

/// Hashes a string with SeaHash under the default seed words.
pub fn hash_str(key: &str) -> (h: u64)
    ensures
        h == seahash_of(key@),
{
    seahash::hash(key.as_bytes())
}

} // verus!
