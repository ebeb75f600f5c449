//! Stable fingerprints: 64-bit FNV-1a over the UTF-8 bytes of a text, written as 16 lowercase
//! hexadecimal digits. The value is the same in every process and on every machine.
use crate::text::push_char;
use vstd::prelude::*;
use vstd::utf8::encode_utf8;

verus! {

pub open spec fn fnv_offset() -> u64 {
    0xcbf29ce484222325u64
}

pub open spec fn fnv_prime() -> u64 {
    0x100000001b3u64
}

/// One FNV-1a step: xor the byte in, then multiply by the prime modulo 2^64.
pub open spec fn fnv_step(hash: u64, byte: u8) -> u64 {
    (((hash ^ (byte as u64)) as int * fnv_prime() as int) % 0x1_0000_0000_0000_0000) as u64
}

/// FNV-1a of a byte sequence.
pub open spec fn fnv1a(bytes: Seq<u8>) -> u64
    decreases bytes.len(),
{
    if bytes.len() == 0 {
        fnv_offset()
    } else {
        fnv_step(fnv1a(bytes.drop_last()), bytes.last())
    }
}

/// The lowercase hexadecimal digit of a value below 16.
pub open spec fn hex_digit(n: u64) -> char {
    if n < 10 {
        ((48 + n) as u8) as char
    } else {
        ((87 + n) as u8) as char
    }
}

/// The lowest `count` hexadecimal digits of `value`, least significant first.
pub open spec fn low_digits(value: u64, count: nat) -> Seq<char>
    decreases count,
{
    if count == 0 {
        Seq::empty()
    } else {
        seq![hex_digit(value % 16)] + low_digits(value / 16, (count - 1) as nat)
    }
}

/// `value` as exactly 16 lowercase hexadecimal digits, most significant first.
pub open spec fn hex16(value: u64) -> Seq<char> {
    low_digits(value, 16).reverse()
}

/// The fingerprint of a text.
pub open spec fn fingerprint_of(text: Seq<char>) -> Seq<char> {
    hex16(fnv1a(encode_utf8(text)))
}

fn digit(n: u64) -> (r: char)
    requires
        n < 16,
    ensures
        r == hex_digit(n),
{
    if n < 10 {
        ((48 + n) as u8) as char
    } else {
        ((87 + n) as u8) as char
    }
}

/// FNV-1a of the UTF-8 bytes of `text`.
pub fn fnv1a_of(text: &str) -> (r: u64)
    ensures
        r == fnv1a(encode_utf8(text@)),
{
    let bytes = text.as_bytes();
    let mut hash: u64 = 0xcbf29ce484222325u64;
    let mut i: usize = 0;
    while i < bytes.len()
        invariant
            i <= bytes@.len(),
            bytes@ == encode_utf8(text@),
            hash == fnv1a(bytes@.take(i as int)),
        decreases bytes@.len() - i,
    {
        assert(bytes@.take(i + 1).drop_last() =~= bytes@.take(i as int));
        hash = (hash ^ (bytes[i] as u64)).wrapping_mul(0x100000001b3u64);
        i = i + 1;
    }
    assert(bytes@.take(i as int) =~= bytes@);
    hash
}

/// `value` as 16 lowercase hexadecimal digits.
pub fn to_hex16(value: u64) -> (r: String)
    ensures
        r@ == hex16(value),
{
    let mut digits: Vec<char> = Vec::new();
    let mut rest = value;
    let mut i: usize = 0;
    while i < 16
        invariant
            i <= 16,
            digits@.len() == i,
            low_digits(value, 16) == digits@ + low_digits(rest, (16 - i) as nat),
        decreases 16 - i,
    {
        let d = digit(rest % 16);
        proof {
            assert(low_digits(rest, (16 - i) as nat) == seq![hex_digit(rest % 16)] + low_digits(
                rest / 16,
                (16 - i - 1) as nat,
            ));
            assert(digits@ + low_digits(rest, (16 - i) as nat) =~= digits@.push(d) + low_digits(
                rest / 16,
                (16 - i - 1) as nat,
            ));
        }
        digits.push(d);
        rest = rest / 16;
        i = i + 1;
    }
    assert(low_digits(rest, 0) =~= Seq::<char>::empty());
    assert(digits@ =~= low_digits(value, 16));
    let mut out = String::new();
    let mut j: usize = 16;
    while j > 0
        invariant
            j <= 16,
            digits@.len() == 16,
            out@ =~= digits@.subrange(j as int, 16).reverse(),
        decreases j,
    {
        j = j - 1;
        push_char(&mut out, digits[j]);
        assert(digits@.subrange(j as int, 16).reverse() =~= digits@.subrange(j + 1, 16).reverse().push(
            digits@[j as int],
        ));
    }
    assert(digits@.subrange(0, 16) =~= digits@);
    out
}

/// The stable fingerprint of a text.
pub fn stable_fingerprint(text: &str) -> (r: String)
    ensures
        r@ == fingerprint_of(text@),
{
    to_hex16(fnv1a_of(text))
}

} // verus!
