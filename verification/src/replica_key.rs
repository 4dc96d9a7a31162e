//! The keys of virtual nodes: a consumer's key, an underscore and the replica's
//! index in decimal.

use vstd::prelude::*;
use vstd::string::StringExecFns;
use vstd::utf8::{encode_utf8, is_ascii_chars};

verus! {

/// The character of a decimal digit.
pub open spec fn digit_char(d: nat) -> char
    recommends
        d < 10,
{
    if d == 0 {
        '0'
    } else if d == 1 {
        '1'
    } else if d == 2 {
        '2'
    } else if d == 3 {
        '3'
    } else if d == 4 {
        '4'
    } else if d == 5 {
        '5'
    } else if d == 6 {
        '6'
    } else if d == 7 {
        '7'
    } else if d == 8 {
        '8'
    } else {
        '9'
    }
}

/// A number in decimal, without sign or leading zeros.
pub open spec fn decimal(n: nat) -> Seq<char>
    decreases n,
{
    if n < 10 {
        seq![digit_char(n)]
    } else {
        decimal(n / 10).push(digit_char(n % 10))
    }
}

/// The key of replica `index` of the consumer `key`.
pub open spec fn replica_key_of(key: Seq<char>, index: nat) -> Seq<char> {
    key + seq!['_'] + decimal(index)
}

/// `node_key` is the key of some replica of the consumer `key`.
pub open spec fn is_replica_key(node_key: Seq<char>, key: Seq<char>) -> bool {
    exists|index: nat| node_key == #[trigger] replica_key_of(key, index)
}

/// A decimal digit as a string.
fn digit_str(d: usize) -> (s: &'static str)
    requires
        d < 10,
    ensures
        s@ == seq![digit_char(d as nat)],
{
    proof {
        reveal_strlit("0");
        reveal_strlit("1");
        reveal_strlit("2");
        reveal_strlit("3");
        reveal_strlit("4");
        reveal_strlit("5");
        reveal_strlit("6");
        reveal_strlit("7");
        reveal_strlit("8");
        reveal_strlit("9");
    }
    let s = if d == 0 {
        "0"
    } else if d == 1 {
        "1"
    } else if d == 2 {
        "2"
    } else if d == 3 {
        "3"
    } else if d == 4 {
        "4"
    } else if d == 5 {
        "5"
    } else if d == 6 {
        "6"
    } else if d == 7 {
        "7"
    } else if d == 8 {
        "8"
    } else {
        "9"
    };
    assert(s@ =~= seq![digit_char(d as nat)]);
    s
}

/// Appends a number in decimal to a string.
fn append_decimal(s: &mut String, n: usize)
    ensures
        final(s)@ == old(s)@ + decimal(n as nat),
    decreases n,
{
    if n >= 10 {
        append_decimal(s, n / 10);
    }
    s.append(digit_str(n % 10));
    proof {
        let lead = decimal((n / 10) as nat);
        let last = seq![digit_char((n % 10) as nat)];
        if n >= 10 {
            assert(decimal(n as nat) =~= lead + last);
            assert(old(s)@ + lead + last =~= old(s)@ + (lead + last));
        }
    }
}

/// Builds the key of replica `index` of the consumer `key`.
pub fn replica_key(key: &str, index: usize) -> (s: String)
    ensures
        s@ == replica_key_of(key@, index as nat),
{
    let mut s = key.to_owned();
    proof {
        reveal_strlit("_");
    }
    s.append("_");
    assert(s@ =~= key@ + seq!['_']);
    append_decimal(&mut s, index);
    s
}

/// The character is a decimal digit.
pub open spec fn is_digit(c: char) -> bool {
    '0' <= c <= '9'
}

/// The characters spell a number in decimal, without sign or leading zeros.
pub open spec fn is_canonical_decimal(s: Seq<char>) -> bool {
    &&& s.len() > 0
    &&& forall|i: int| 0 <= i < s.len() ==> is_digit(#[trigger] s[i])
    &&& s.len() > 1 ==> s[0] != '0'
}

/// The number that a sequence of decimal digits spells.
pub open spec fn decimal_value(s: Seq<char>) -> nat
    decreases s.len(),
{
    if s.len() == 0 {
        0
    } else {
        decimal_value(s.drop_last()) * 10 + (s.last() as nat - '0' as nat) as nat
    }
}

/// `decimal` writes canonical decimals, and starts a positive number with a
/// digit other than zero.
pub proof fn lemma_decimal_is_canonical(n: nat)
    ensures
        is_canonical_decimal(decimal(n)),
        n > 0 ==> decimal(n)[0] != '0',
        decimal_value(decimal(n)) == n,
    decreases n,
{
    if n < 10 {
        let s = decimal(n);
        assert(s.drop_last() =~= Seq::<char>::empty());
        assert(decimal_value(s.drop_last()) == 0);
    } else {
        lemma_decimal_is_canonical(n / 10);
        let lead = decimal(n / 10);
        let s = decimal(n);
        assert(s == lead.push(digit_char(n % 10)));
        assert(s.drop_last() =~= lead);
        assert forall|i: int| 0 <= i < s.len() implies is_digit(#[trigger] s[i]) by {
            if i < lead.len() {
                assert(s[i] == lead[i]);
            }
        }
        assert(s[0] == lead[0]);
    }
}

/// Digits that start with a digit other than zero spell a positive number.
proof fn lemma_decimal_value_positive(s: Seq<char>)
    requires
        s.len() > 0,
        forall|i: int| 0 <= i < s.len() ==> is_digit(#[trigger] s[i]),
        s[0] != '0',
    ensures
        decimal_value(s) > 0,
    decreases s.len(),
{
    if s.len() == 1 {
        assert(s.drop_last() =~= Seq::<char>::empty());
        assert(decimal_value(s.drop_last()) == 0);
        assert(is_digit(s[0]));
    } else {
        let lead = s.drop_last();
        assert forall|i: int| 0 <= i < lead.len() implies is_digit(#[trigger] lead[i]) by {
            assert(lead[i] == s[i]);
        }
        assert(lead[0] == s[0]);
        lemma_decimal_value_positive(lead);
    }
}

/// Every canonical decimal is what `decimal` writes for the number it spells.
pub proof fn lemma_canonical_is_decimal(s: Seq<char>)
    requires
        is_canonical_decimal(s),
    ensures
        s == decimal(decimal_value(s)),
    decreases s.len(),
{
    let d = (s.last() as nat - '0' as nat) as nat;
    assert(is_digit(s[s.len() - 1]));
    assert(d < 10);
    assert(digit_char(d) == s.last());
    if s.len() == 1 {
        assert(s.drop_last() =~= Seq::<char>::empty());
        assert(decimal_value(s.drop_last()) == 0);
        assert(s =~= seq![digit_char(d)]);
    } else {
        let lead = s.drop_last();
        assert forall|i: int| 0 <= i < lead.len() implies is_digit(#[trigger] lead[i]) by {
            assert(lead[i] == s[i]);
        }
        assert(lead[0] == s[0]);
        lemma_canonical_is_decimal(lead);
        lemma_decimal_value_positive(lead);
        let v = decimal_value(lead);
        assert(decimal_value(s) == v * 10 + d);
        assert((v * 10 + d) / 10 == v && (v * 10 + d) % 10 == d);
        assert(s =~= lead.push(s.last()));
    }
}

/// The bytes `node` are the bytes `key`, an underscore and a canonical decimal
/// in ASCII digits.
pub open spec fn has_replica_shape(node: Seq<u8>, key: Seq<u8>) -> bool {
    &&& node.len() >= key.len() + 2
    &&& node.subrange(0, key.len() as int) == key
    &&& node[key.len() as int] == 0x5f
    &&& forall|j: int| key.len() < j < node.len() ==> 0x30 <= #[trigger] node[j] <= 0x39
    &&& node.len() > key.len() + 2 ==> node[key.len() as int + 1] != 0x30
}

/// The UTF-8 bytes of two strings one after the other are the bytes of the
/// strings joined.
pub proof fn lemma_encode_utf8_concat(a: Seq<char>, b: Seq<char>)
    ensures
        encode_utf8(a + b) == encode_utf8(a) + encode_utf8(b),
    decreases a.len(),
{
    if a.len() == 0 {
        assert(a + b =~= b);
        assert(encode_utf8(a) + encode_utf8(b) =~= encode_utf8(b));
    } else {
        lemma_encode_utf8_concat(a.drop_first(), b);
        assert((a + b).drop_first() =~= a.drop_first() + b);
        assert((a + b)[0] == a[0]);
        let head = vstd::utf8::encode_scalar(a[0] as u32);
        assert(head + (encode_utf8(a.drop_first()) + encode_utf8(b)) =~= (head + encode_utf8(
            a.drop_first(),
        )) + encode_utf8(b));
    }
}

/// A string is the key of a replica of a consumer exactly when its UTF-8
/// bytes have the shape of one over the bytes of the consumer's key.
pub proof fn lemma_replica_shape(node_key: Seq<char>, key: Seq<char>)
    ensures
        is_replica_key(node_key, key) <==> has_replica_shape(
            encode_utf8(node_key),
            encode_utf8(key),
        ),
{
    let nb = encode_utf8(node_key);
    let kb = encode_utf8(key);
    if is_replica_key(node_key, key) {
        let index = choose|index: nat| node_key == #[trigger] replica_key_of(key, index);
        let rest = seq!['_'] + decimal(index);
        lemma_decimal_is_canonical(index);
        assert(node_key =~= key + rest);
        lemma_encode_utf8_concat(key, rest);
        assert forall|i: int| 0 <= i < rest.len() implies '\0' <= #[trigger] rest[i]
            <= '\u{7f}' by {
            if i > 0 {
                assert(rest[i] == decimal(index)[i - 1]);
                assert(is_digit(decimal(index)[i - 1]));
            }
        }
        assert(is_ascii_chars(rest));
        vstd::utf8::is_ascii_chars_encode_utf8(rest);
        let rb = encode_utf8(rest);
        assert(nb == kb + rb);
        assert(nb.subrange(0, kb.len() as int) =~= kb);
        assert(nb[kb.len() as int] == rb[0]);
        assert(rest[0] == '_');
        assert forall|j: int| kb.len() < j < nb.len() implies 0x30 <= #[trigger] nb[j] <= 0x39 by {
            assert(nb[j] == rb[j - kb.len()]);
            assert(rest[j - kb.len()] == decimal(index)[j - kb.len() - 1]);
            assert(is_digit(decimal(index)[j - kb.len() - 1]));
        }
        if nb.len() > kb.len() + 2 {
            assert(nb[kb.len() as int + 1] == rb[1]);
            assert(rest[1] == decimal(index)[0]);
        }
        assert(has_replica_shape(nb, kb));
    }
    if has_replica_shape(nb, kb) {
        let rb = nb.subrange(kb.len() as int, nb.len() as int);
        let rest = Seq::new(rb.len(), |i: int| rb[i] as char);
        let digits = rest.subrange(1, rest.len() as int);
        assert forall|i: int| 0 <= i < rest.len() implies '\0' <= #[trigger] rest[i]
            <= '\u{7f}' by {
            assert(rb[i] == nb[kb.len() + i]);
        }
        assert(is_ascii_chars(rest));
        vstd::utf8::is_ascii_chars_encode_utf8(rest);
        assert forall|i: int| 0 <= i < rb.len() implies encode_utf8(rest)[i] == rb[i] by {
            assert(rest[i] as u8 == encode_utf8(rest)[i]);
            assert(rb[i] == nb[kb.len() + i]);
        }
        assert(encode_utf8(rest) =~= rb);
        assert(nb =~= nb.subrange(0, kb.len() as int) + rb);
        lemma_encode_utf8_concat(key, rest);
        assert(encode_utf8(key + rest) == nb);
        vstd::utf8::encode_utf8_decode_utf8(key + rest);
        vstd::utf8::encode_utf8_decode_utf8(node_key);
        assert(node_key == key + rest);
        assert(rest[0] == '_') by {
            assert(rb[0] == nb[kb.len() as int]);
        }
        assert forall|i: int| 0 <= i < digits.len() implies is_digit(#[trigger] digits[i]) by {
            assert(digits[i] == rest[i + 1]);
            assert(rb[i + 1] == nb[kb.len() + i + 1]);
        }
        if digits.len() > 1 {
            assert(digits[0] == rest[1]);
            assert(rb[1] == nb[kb.len() as int + 1]);
        }
        assert(is_canonical_decimal(digits));
        lemma_canonical_is_decimal(digits);
        let index = decimal_value(digits);
        assert(rest =~= seq!['_'] + digits);
        assert(key + rest =~= key + seq!['_'] + digits);
        assert(node_key == replica_key_of(key, index));
    }
}

/// Tells whether `node_key` is the key of some replica of the consumer `key`:
/// the consumer's key, an underscore and an index in decimal. A key that
/// merely begins with the consumer's key is not.
pub fn is_replica_of(node_key: &str, key: &str) -> (b: bool)
    ensures
        b == is_replica_key(node_key@, key@),
{
    let node = node_key.as_bytes();
    let own = key.as_bytes();
    let n = node.len();
    let k = own.len();
    proof {
        lemma_replica_shape(node_key@, key@);
    }
    if n <= k || n - k < 2 {
        return false;
    }
    let mut i: usize = 0;
    while i < k
        invariant
            i <= k < n,
            k == own@.len(),
            n == node@.len(),
            is_replica_key(node_key@, key@) <==> has_replica_shape(node@, own@),
            node@.subrange(0, i as int) == own@.subrange(0, i as int),
        decreases k - i,
    {
        if node[i] != own[i] {
            proof {
                if node@.subrange(0, k as int) == own@ {
                    assert(node@.subrange(0, k as int)[i as int] == own@[i as int]);
                }
            }
            return false;
        }
        proof {
            assert(node@.subrange(0, i + 1) =~= node@.subrange(0, i as int).push(node@[i as int]));
            assert(own@.subrange(0, i + 1) =~= own@.subrange(0, i as int).push(own@[i as int]));
        }
        i += 1;
    }
    assert(own@.subrange(0, k as int) =~= own@);
    if node[k] != 0x5f {
        return false;
    }
    if n - k > 2 && node[k + 1] == 0x30 {
        return false;
    }
    let mut j: usize = k + 1;
    while j < n
        invariant
            k < j <= n,
            k == own@.len(),
            n == node@.len(),
            is_replica_key(node_key@, key@) <==> has_replica_shape(node@, own@),
            forall|m: int| k < m < j ==> 0x30 <= #[trigger] node@[m] <= 0x39,
        decreases n - j,
    {
        if node[j] < 0x30 || node[j] > 0x39 {
            return false;
        }
        j += 1;
    }
    true
}

} // verus!
