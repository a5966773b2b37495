//! Hexadecimal addresses as bit strings, and bit strings as integers.

use vstd::prelude::*;
use vstd::arithmetic::power2::{
    pow2, lemma_pow2_unfold, lemma_pow2_pos, lemma2_to64, lemma_pow2_strictly_increases,
};

verus! {

/// Why an address could not be decoded or split.
#[derive(Debug, PartialEq, Eq, Clone, Copy, Structural)]
pub enum DecodeError {
    /// A character that is not a hexadecimal digit.
    Format,
    /// The address does not start with `0x`.
    Prefix,
    /// The decoded address is not 32 bits long.
    LengthMismatch,
}

/// The value of a hexadecimal digit, in either case.
pub open spec fn hex_digit_value(c: char) -> Option<u8> {
    match c {
        '0' => Some(0u8),
        '1' => Some(1u8),
        '2' => Some(2u8),
        '3' => Some(3u8),
        '4' => Some(4u8),
        '5' => Some(5u8),
        '6' => Some(6u8),
        '7' => Some(7u8),
        '8' => Some(8u8),
        '9' => Some(9u8),
        'a' | 'A' => Some(10u8),
        'b' | 'B' => Some(11u8),
        'c' | 'C' => Some(12u8),
        'd' | 'D' => Some(13u8),
        'e' | 'E' => Some(14u8),
        'f' | 'F' => Some(15u8),
        _ => None,
    }
}

pub open spec fn is_hex(s: Seq<char>) -> bool {
    forall|i: int| 0 <= i < s.len() ==> (#[trigger] hex_digit_value(s[i])) is Some
}

pub open spec fn bit_char(b: nat) -> char {
    if b == 1 {
        '1'
    } else {
        '0'
    }
}

/// The four binary digits of `v` (below 16), most significant first.
pub open spec fn nibble(v: nat) -> Seq<char> {
    seq![bit_char((v / 8) % 2), bit_char((v / 4) % 2), bit_char((v / 2) % 2), bit_char(v % 2)]
}

/// The bit string of a run of hexadecimal digits: each digit's nibble, in order.
pub open spec fn hex_bits(s: Seq<char>) -> Seq<char>
    decreases s.len(),
{
    if s.len() == 0 {
        Seq::empty()
    } else {
        hex_bits(s.drop_last()) + nibble(hex_digit_value(s.last())->0 as nat)
    }
}

/// What decoding an address text gives: its digits after `0x` as a bit string.
pub open spec fn decode_hex(text: Seq<char>) -> Result<Seq<char>, DecodeError> {
    if !(text.len() >= 2 && text[0] == '0' && (text[1] == 'x' || text[1] == 'X')) {
        Err(DecodeError::Prefix)
    } else if !is_hex(text.subrange(2, text.len() as int)) {
        Err(DecodeError::Format)
    } else {
        Ok(hex_bits(text.subrange(2, text.len() as int)))
    }
}

/// The unsigned number that a bit string spells, most significant bit first.
pub open spec fn bits_value(s: Seq<char>) -> nat
    decreases s.len(),
{
    if s.len() == 0 {
        0
    } else {
        2 * bits_value(s.drop_last()) + (if s.last() == '1' { 1nat } else { 0nat })
    }
}

/// Decoding hex digits yields four bits per digit, and the bits of digit `i` are
/// exactly that digit's nibble.
pub proof fn lemma_hex_bits_layout(s: Seq<char>)
    requires
        is_hex(s),
    ensures
        hex_bits(s).len() == 4 * s.len(),
        forall|i: int|
            0 <= i < s.len() ==> hex_bits(s).subrange(4 * i, 4 * i + 4) == nibble(
                hex_digit_value(#[trigger] s[i])->0 as nat,
            ),
    decreases s.len(),
{
    if s.len() > 0 {
        let p = s.drop_last();
        assert forall|i: int| 0 <= i < p.len() implies (#[trigger] hex_digit_value(p[i])) is Some by {
            assert(p[i] == s[i]);
        }
        lemma_hex_bits_layout(p);
        assert(hex_digit_value(s[s.len() - 1]) is Some);
        let n = hex_bits(s);
        let k = s.len() - 1;
        assert forall|i: int| 0 <= i < s.len() implies n.subrange(4 * i, 4 * i + 4) == nibble(
            hex_digit_value(#[trigger] s[i])->0 as nat,
        ) by {
            if i < k {
                assert(p[i] == s[i]);
                assert(n.subrange(4 * i, 4 * i + 4) =~= hex_bits(p).subrange(4 * i, 4 * i + 4));
            } else {
                assert(n.subrange(4 * i, 4 * i + 4) =~= nibble(hex_digit_value(s.last())->0 as nat));
            }
        }
    }
}

/// The number spelled by two bit strings side by side: the first shifted past the
/// second, plus the second.
pub proof fn lemma_bits_value_concat(a: Seq<char>, b: Seq<char>)
    ensures
        bits_value(a + b) == bits_value(a) * pow2(b.len()) + bits_value(b),
    decreases b.len(),
{
    if b.len() == 0 {
        assert(a + b =~= a);
        lemma_pow2_unfold(1);
        assert(pow2(0) == 1) by {
            lemma2_to64();
        }
    } else {
        let b2 = b.drop_last();
        assert((a + b).drop_last() =~= a + b2);
        assert((a + b).last() == b.last());
        lemma_bits_value_concat(a, b2);
        lemma_pow2_unfold(b.len());
        let va = bits_value(a);
        let p = pow2(b2.len());
        assert(2 * (va * p) == va * (2 * p)) by (nonlinear_arith);
    }
}

/// The numbers spelled by `n` bits are below `2^n`.
pub proof fn lemma_bits_value_bound(s: Seq<char>)
    ensures
        bits_value(s) < pow2(s.len()),
    decreases s.len(),
{
    if s.len() > 0 {
        lemma_bits_value_bound(s.drop_last());
        lemma_pow2_unfold(s.len());
    } else {
        lemma_pow2_pos(0);
    }
}

fn hex_digit(c: char) -> (r: Option<u8>)
    ensures
        r == hex_digit_value(c),
{
    match c {
        '0' => Some(0u8),
        '1' => Some(1u8),
        '2' => Some(2u8),
        '3' => Some(3u8),
        '4' => Some(4u8),
        '5' => Some(5u8),
        '6' => Some(6u8),
        '7' => Some(7u8),
        '8' => Some(8u8),
        '9' => Some(9u8),
        'a' | 'A' => Some(10u8),
        'b' | 'B' => Some(11u8),
        'c' | 'C' => Some(12u8),
        'd' | 'D' => Some(13u8),
        'e' | 'E' => Some(14u8),
        'f' | 'F' => Some(15u8),
        _ => None,
    }
}

fn push_bit(out: &mut String, b: u8)
    requires
        b < 2,
    ensures
        final(out)@ == old(out)@.push(bit_char(b as nat)),
{
    proof {
        reveal_strlit("1");
        reveal_strlit("0");
    }
    if b == 1 {
        out.append("1");
    } else {
        out.append("0");
    }
    assert(out@ =~= old(out)@.push(bit_char(b as nat)));
}

/// Expands hexadecimal digits (either case) into a string of binary digits,
/// four per hex digit; fails on any other character.
pub fn hex_str_to_binary_str(hex_str: &str) -> (r: Result<String, DecodeError>)
    ensures
        match r {
            Ok(bits) => is_hex(hex_str@) && bits@ == hex_bits(hex_str@),
            Err(e) => !is_hex(hex_str@) && e == DecodeError::Format,
        },
{
    let n = hex_str.unicode_len();
    let mut out = String::new();
    let mut i: usize = 0;
    while i < n
        invariant
            n == hex_str@.len(),
            i <= n,
            is_hex(hex_str@.take(i as int)),
            out@ == hex_bits(hex_str@.take(i as int)),
        decreases n - i,
    {
        let c = hex_str.get_char(i);
        let v = match hex_digit(c) {
            Some(v) => v,
            None => {
                assert(hex_digit_value(hex_str@[i as int]) is None);
                return Err(DecodeError::Format);
            },
        };
        push_bit(&mut out, (v / 8) % 2);
        push_bit(&mut out, (v / 4) % 2);
        push_bit(&mut out, (v / 2) % 2);
        push_bit(&mut out, v % 2);
        proof {
            let t = hex_str@.take(i + 1);
            assert(t.drop_last() =~= hex_str@.take(i as int));
            assert(t.last() == c);
            assert forall|j: int| 0 <= j < t.len() implies (#[trigger] hex_digit_value(t[j])) is Some by {
                if j < i {
                    assert(t[j] == hex_str@.take(i as int)[j]);
                }
            }
            assert(out@ =~= hex_bits(t));
        }
        i = i + 1;
    }
    assert(hex_str@.take(n as int) =~= hex_str@);
    Ok(out)
}

/// Decodes an address written as `0x` (or `0X`) followed by hexadecimal digits
/// into its bit string.
pub fn decode_hex_address(text: &str) -> (r: Result<String, DecodeError>)
    ensures
        match r {
            Ok(bits) => decode_hex(text@) == Ok::<Seq<char>, DecodeError>(bits@),
            Err(e) => decode_hex(text@) == Err::<Seq<char>, DecodeError>(e),
        },
{
    let n = text.unicode_len();
    if n < 2 {
        return Err(DecodeError::Prefix);
    }
    let c0 = text.get_char(0);
    let c1 = text.get_char(1);
    if !(c0 == '0' && (c1 == 'x' || c1 == 'X')) {
        return Err(DecodeError::Prefix);
    }
    let digits = text.substring_char(2, n);
    hex_str_to_binary_str(digits)
}

/// The number that a string of at most 32 binary digits spells; any character
/// other than `1` counts as a zero bit.
pub fn binary_str_value(bits: &str) -> (r: u32)
    requires
        bits@.len() <= 32,
    ensures
        r as nat == bits_value(bits@),
{
    let n = bits.unicode_len();
    let mut acc: u64 = 0;
    let mut i: usize = 0;
    proof {
        lemma2_to64();
    }
    while i < n
        invariant
            n == bits@.len(),
            n <= 32,
            i <= n,
            acc as nat == bits_value(bits@.take(i as int)),
            pow2(32) == 0x1_0000_0000,
        decreases n - i,
    {
        proof {
            lemma_bits_value_bound(bits@.take(i as int));
            if i < 32 {
                lemma_pow2_strictly_increases(i as nat, 32);
            }
        }
        let c = bits.get_char(i);
        let b: u64 = if c == '1' { 1 } else { 0 };
        acc = 2 * acc + b;
        proof {
            let t = bits@.take(i + 1);
            assert(t.drop_last() =~= bits@.take(i as int));
        }
        i = i + 1;
    }
    proof {
        assert(bits@.take(n as int) =~= bits@);
        lemma_bits_value_bound(bits@);
        if n < 32 {
            lemma_pow2_strictly_increases(n as nat, 32);
        }
    }
    acc as u32
}

} // verus!
