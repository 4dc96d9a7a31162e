//! The cheap position hashes of the 32-bit Bloom filters, and the text that
//! shows a filter's bits.

use vstd::arithmetic::div_mod::lemma_mul_mod_noop_general;
use vstd::arithmetic::power::pow;
use vstd::prelude::*;
use vstd::string::StringExecFns;

verus! {

/// What a character adds to a hash: its code modulo 32.
pub open spec fn char_residue(ch: char) -> nat {
    (ch as u32 % 32) as nat
}

/// The additive hash of a key under a seed: every character adds the seed and
/// its code modulo 32, and the sum is kept modulo 32.
pub open spec fn seeded_additive_hash(key: Seq<char>, seed: nat) -> nat
    decreases key.len(),
{
    if key.len() == 0 {
        0
    } else {
        (seeded_additive_hash(key.drop_last(), seed) + seed + char_residue(key.last())) % 32
    }
}

/// The additive hash of a key: the sum of its characters' codes modulo 32.
pub open spec fn additive_hash(key: Seq<char>) -> nat {
    seeded_additive_hash(key, 0)
}

/// The place-value hash of a key: the character at index `i` counts with the
/// weight `26^(i + 2)`, and the sum is kept modulo 32.
pub open spec fn place_value_hash(key: Seq<char>) -> nat
    decreases key.len(),
{
    if key.len() == 0 {
        0
    } else {
        let weight = pow(26, (key.len() + 1) as nat);
        ((place_value_hash(key.drop_last()) + (char_residue(key.last()) * weight) % 32)
            % 32) as nat
    }
}

/// The sum of what the characters of a key add to a hash.
pub open spec fn residue_sum(key: Seq<char>) -> nat
    decreases key.len(),
{
    if key.len() == 0 {
        0
    } else {
        residue_sum(key.drop_last()) + char_residue(key.last())
    }
}

/// Adding to a remainder modulo 32 is adding to the number itself.
proof fn lemma_add_to_remainder(a: int, b: int)
    ensures
        ((a % 32) + b) % 32 == (a + b) % 32,
{
}

/// The additive hash of a key under a seed is the sum of what its characters
/// add and of the seed once for every character, modulo 32.
pub proof fn lemma_seeded_additive_hash_sum(key: Seq<char>, seed: nat)
    ensures
        seeded_additive_hash(key, seed) == (residue_sum(key) + seed * key.len()) % 32,
    decreases key.len(),
{
    let all = seed * key.len();
    if key.len() == 0 {
        assert(all == 0) by (nonlinear_arith)
            requires
                all == seed * key.len(),
                key.len() == 0,
        ;
    } else {
        let lead = key.drop_last();
        let earlier = seed * lead.len();
        lemma_seeded_additive_hash_sum(lead, seed);
        assert(all == earlier + seed) by (nonlinear_arith)
            requires
                all == seed * key.len(),
                earlier == seed * lead.len(),
                key.len() == lead.len() + 1,
        ;
        lemma_add_to_remainder(
            (residue_sum(lead) + earlier) as int,
            (seed + char_residue(key.last())) as int,
        );
    }
}

/// A seed moves the additive hash of a key by the seed times the key's
/// length: two seeds give one hash exactly when that product is the same
/// modulo 32 for both.
pub proof fn lemma_seeded_additive_hash(key: Seq<char>, seed: nat)
    ensures
        seeded_additive_hash(key, seed) == (additive_hash(key) + seed * key.len()) % 32,
        seeded_additive_hash(key, seed) < 32,
{
    let all = seed * key.len();
    let none = 0 * key.len();
    lemma_seeded_additive_hash_sum(key, seed);
    lemma_seeded_additive_hash_sum(key, 0);
    assert(none == 0) by (nonlinear_arith)
        requires
            none == 0 * key.len(),
    ;
    lemma_add_to_remainder(residue_sum(key) as int, all as int);
}

/// Computes the additive hash of a key under a seed, a position among 32
/// bits.
pub fn additive_position(key: &str, seed: usize) -> (position: usize)
    ensures
        position == seeded_additive_hash(key@, seed as nat),
        position < 32,
{
    let step = seed % 32;
    let mut acc: usize = 0;
    for ch in it: key.chars()
        invariant
            step == seed % 32,
            acc < 32,
            it.seq() == key@,
            acc == seeded_additive_hash(key@.take(it.index() as int), seed as nat),
    {
        let ghost before = acc;
        acc = (acc + step + (ch as u32 % 32) as usize) % 32;
        proof {
            let done = key@.take(it.index() as int);
            let next = key@.take(it.index() + 1);
            assert(next.drop_last() =~= done);
            assert(next.last() == ch);
            assert(seeded_additive_hash(next, seed as nat) == (before + seed + char_residue(ch))
                % 32);
        }
    }
    proof {
        assert(key@.take(key@.len() as int) =~= key@);
    }
    acc
}

/// Computes the place-value hash of a key, a position among 32 bits.
pub fn place_value_position(key: &str) -> (position: usize)
    ensures
        position == place_value_hash(key@),
        position < 32,
{
    let mut acc: usize = 0;
    // The weight of the next character, modulo 32.
    let mut weight: usize = 4;
    proof {
        assert(pow(26, 2) == 676) by {
            reveal_with_fuel(pow, 3);
        }
    }
    for ch in it: key.chars()
        invariant
            acc < 32,
            weight < 32,
            it.seq() == key@,
            weight == pow(26, (it.index() + 2) as nat) % 32,
            acc == place_value_hash(key@.take(it.index() as int)),
    {
        let ghost before = acc;
        let ghost index = it.index();
        let residue = (ch as u32 % 32) as usize;
        assert(residue * weight <= 31 * 31) by (nonlinear_arith)
            requires
                residue <= 31,
                weight <= 31,
        ;
        acc = (acc + (residue * weight) % 32) % 32;
        proof {
            let done = key@.take(index as int);
            let next = key@.take(index + 1);
            let full = pow(26, (index + 2) as nat);
            assert(next.drop_last() =~= done);
            assert(next.last() == ch);
            assert(next.len() + 1 == index + 2);
            lemma_mul_mod_noop_general(residue as int, full, 32);
            assert(place_value_hash(next) == (before + (char_residue(ch) * full) % 32) % 32);
            assert(pow(26, (index + 3) as nat) == 26 * full) by {
                reveal(pow);
            }
            lemma_mul_mod_noop_general(26, full, 32);
        }
        weight = (weight * 26) % 32;
    }
    proof {
        assert(key@.take(key@.len() as int) =~= key@);
    }
    acc
}

/// The bits of a filter as text: a one or a zero for each bit, each followed
/// by a space.
pub open spec fn bits_text(bits: Seq<bool>) -> Seq<char>
    decreases bits.len(),
{
    if bits.len() == 0 {
        Seq::empty()
    } else {
        bits_text(bits.drop_last()) + (if bits.last() {
            seq!['1', ' ']
        } else {
            seq!['0', ' ']
        })
    }
}

/// The text of a filter's bits between double quotes.
pub open spec fn quoted_bits_text(bits: Seq<bool>) -> Seq<char> {
    seq!['"'] + bits_text(bits) + seq!['"']
}

/// Writes the bits of a filter as text between double quotes.
pub fn quoted_bits_string(bits: &[bool]) -> (text: String)
    ensures
        text@ == quoted_bits_text(bits@),
{
    proof {
        reveal_strlit("\"");
        reveal_strlit("1 ");
        reveal_strlit("0 ");
    }
    let mut text = String::new();
    text.append("\"");
    let mut i: usize = 0;
    while i < bits.len()
        invariant
            i <= bits@.len(),
            text@ == seq!['"'] + bits_text(bits@.take(i as int)),
            "1 "@ == seq!['1', ' '],
            "0 "@ == seq!['0', ' '],
        decreases bits@.len() - i,
    {
        proof {
            let next = bits@.take(i + 1);
            assert(next.drop_last() =~= bits@.take(i as int));
            assert(next.last() == bits@[i as int]);
        }
        if bits[i] {
            text.append("1 ");
        } else {
            text.append("0 ");
        }
        i += 1;
    }
    proof {
        assert(bits@.take(bits@.len() as int) =~= bits@);
    }
    text.append("\"");
    text
}

} // verus!
