use vstd::prelude::*;
use vstd::string::*;
use vstd::utf8::*;

verus! {

/// Number of symbols in the alphabet: the lowercase and the uppercase ASCII letters.
pub const ALPHABET_SIZE: usize = 52;

/// Whether `c` belongs to the alphabet.
pub open spec fn is_symbol(c: char) -> bool {
    ('a' <= c && c <= 'z') || ('A' <= c && c <= 'Z')
}

/// The slot of a symbol: `a`..`z` take 0..25, `A`..`Z` take 26..51.
pub open spec fn symbol_index(c: char) -> int
    recommends
        is_symbol(c),
{
    if 'a' <= c && c <= 'z' {
        c as int - 'a' as int
    } else {
        c as int - 'A' as int + 26
    }
}

/// The symbol that takes slot `index`.
pub open spec fn index_symbol(index: int) -> char
    recommends
        0 <= index < ALPHABET_SIZE,
{
    if index < 26 {
        ('a' as int + index) as char
    } else {
        ('A' as int + index - 26) as char
    }
}

/// Whether `key` is made of symbols of the alphabet only. The empty sequence is a key.
pub open spec fn is_key(key: Seq<char>) -> bool {
    forall|i: int| 0 <= i < key.len() ==> is_symbol(#[trigger] key[i])
}

/// The fault of a text that is no key: where its first character outside the alphabet
/// stands, and the byte found there.
#[derive(Debug, Clone, Copy, PartialEq, Eq)]
pub struct InvalidSymbol {
    pub position: usize,
    pub byte: u8,
}

/// Whether the byte `b` is the code of a symbol.
pub fn is_symbol_byte(b: u8) -> (known: bool)
    ensures
        known == is_symbol(b as char),
{
    ('a' as u8 <= b && b <= 'z' as u8) || ('A' as u8 <= b && b <= 'Z' as u8)
}

/// Tells whether `key` may be handed to the operations of the map. A text with a
/// character outside the alphabet is answered with the first such character: its
/// position, and the byte that stands there in the UTF-8 text.
pub fn check_key(key: &str) -> (checked: Result<(), InvalidSymbol>)
    ensures
        match checked {
            Ok(_) => is_key(key@),
            Err(fault) => {
                &&& fault.position < key@.len()
                &&& !is_symbol(key@[fault.position as int])
                &&& is_key(key@.take(fault.position as int))
                &&& fault.position < key.spec_bytes().len()
                &&& fault.byte == key.spec_bytes()[fault.position as int]
                &&& key@[fault.position as int] <= '\u{7f}' ==> fault.byte
                    == key@[fault.position as int] as u8
            },
        },
{
    let bytes = key.as_bytes();
    let mut i: usize = 0;
    while i < bytes.len()
        invariant
            bytes@ == key.spec_bytes(),
            i <= bytes@.len(),
            forall|j: int| 0 <= j < i ==> is_symbol(#[trigger] bytes@[j] as char),
        decreases bytes@.len() - i,
    {
        let b = bytes[i];
        if !is_symbol_byte(b) {
            proof {
                lemma_symbol_bytes_prefix(key@, i as int);
            }
            return Err(InvalidSymbol { position: i, byte: b });
        }
        i += 1;
    }
    proof {
        lemma_symbol_bytes_prefix(key@, i as int);
    }
    Ok(())
}

/// Every symbol has a slot below `ALPHABET_SIZE`, and `index_symbol` leads back from it.
pub proof fn lemma_symbol_index_in_range(c: char)
    requires
        is_symbol(c),
    ensures
        0 <= symbol_index(c) < ALPHABET_SIZE,
        index_symbol(symbol_index(c)) == c,
{
}

/// Every slot belongs to a symbol.
pub proof fn lemma_index_symbol_is_symbol(index: int)
    requires
        0 <= index < ALPHABET_SIZE,
    ensures
        is_symbol(index_symbol(index)),
        symbol_index(index_symbol(index)) == index,
{
}

/// Two different symbols never share a slot; in particular a lowercase letter and its
/// uppercase form are kept apart.
pub proof fn lemma_symbol_index_injective(c1: char, c2: char)
    requires
        is_symbol(c1),
        is_symbol(c2),
        symbol_index(c1) == symbol_index(c2),
    ensures
        c1 == c2,
{
}

/// Two non-empty sequences with the same first symbol and the same rest are the same.
pub proof fn lemma_same_first_and_rest(a: Seq<char>, b: Seq<char>)
    requires
        a.len() > 0,
        b.len() > 0,
        a[0] == b[0],
        a.drop_first() == b.drop_first(),
    ensures
        a == b,
{
    assert(a =~= seq![a[0]] + a.drop_first());
    assert(b =~= seq![b[0]] + b.drop_first());
}

/// A key is ASCII text, so it takes one byte per symbol.
pub proof fn lemma_key_bytes(key: &str)
    requires
        is_key(key@),
    ensures
        is_ascii(key),
        key.spec_bytes().len() == key@.len(),
        forall|i: int| 0 <= i < key@.len() ==> (#[trigger] key.spec_bytes()[i]) == key@[i] as u8,
{
    assert(is_ascii_chars(key@)) by {
        assert forall|i: int| 0 <= i < key@.len() implies '\0' <= #[trigger] key@[i] <= '\u{7f}' by {
            assert(is_symbol(key@[i]));
        }
    }
    is_ascii_chars_encode_utf8(key@);
}

/// What the UTF-8 text of `chars` holds up to and at byte `p`, when every byte before `p`
/// is a symbol: one byte per character so far, and at `p` the first byte of character `p`.
proof fn lemma_symbol_bytes_prefix(chars: Seq<char>, p: int)
    requires
        0 <= p <= encode_utf8(chars).len(),
        forall|i: int| 0 <= i < p ==> is_symbol(#[trigger] encode_utf8(chars)[i] as char),
    ensures
        p <= chars.len(),
        forall|i: int| 0 <= i < p ==> is_symbol(#[trigger] chars[i]),
        p == encode_utf8(chars).len() ==> p == chars.len(),
        p < encode_utf8(chars).len() ==> p < chars.len() && (is_symbol(
            encode_utf8(chars)[p] as char,
        ) <==> is_symbol(chars[p])),
        p < encode_utf8(chars).len() && chars[p] <= '\u{7f}' ==> encode_utf8(chars)[p]
            == chars[p] as u8,
    decreases chars.len(),
{
    let bytes = encode_utf8(chars);
    if chars.len() == 0 {
    } else {
        let c0 = chars[0] as u32;
        let rest = chars.drop_first();
        char_is_scalar(chars[0]);
        char_u32_cast(chars[0], c0);
        assert(bytes == encode_scalar(c0) + encode_utf8(rest));
        assert(bytes[0] == encode_scalar(c0)[0]);
        assert(c0 <= 0x7F ==> (c0 & 0x7F) as u8 == c0 as u8) by (bit_vector);
        assert(0xC0u8 | ((c0 >> 6) & 0x1F) as u8 >= 0xC0) by (bit_vector);
        assert(0xE0u8 | ((c0 >> 12) & 0x0F) as u8 >= 0xC0) by (bit_vector);
        assert(0xF0u8 | ((c0 >> 18) & 0x7) as u8 >= 0xC0) by (bit_vector);
        if has_width_1_encoding(c0) {
            assert(bytes[0] == c0 as u8);
            assert(bytes[0] as char == chars[0]);
        } else {
            assert(bytes[0] >= 0xC0);
            assert(!is_symbol(bytes[0] as char));
            assert(!is_symbol(chars[0]));
        }
        if p > 0 {
            assert(is_symbol(bytes[0] as char));
            assert(has_width_1_encoding(c0));
            assert(encode_utf8(rest) =~= bytes.drop_first());
            assert forall|i: int| 0 <= i < p - 1 implies is_symbol(
                #[trigger] encode_utf8(rest)[i] as char,
            ) by {
                assert(encode_utf8(rest)[i] == bytes[i + 1]);
            }
            lemma_symbol_bytes_prefix(rest, p - 1);
            assert forall|i: int| 0 <= i < p implies is_symbol(#[trigger] chars[i]) by {
                if i > 0 {
                    assert(chars[i] == rest[i - 1]);
                }
            }
            if p < bytes.len() {
                assert(bytes[p] == encode_utf8(rest)[p - 1]);
                assert(chars[p] == rest[p - 1]);
            }
        }
    }
}

} // verus!
