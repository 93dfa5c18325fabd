//! The fixed bijection between the 256 byte values and printable symbol
//! characters.
//!
//! Bytes that are printable in common terminal encodings map to the character
//! with the same scalar value; every other byte gets a fresh scalar value
//! starting at 256, assigned in ascending byte order.

use crate::errors::TokenizerError;
use crate::strutil::char_from_code;
use std::collections::HashMap;
use vstd::prelude::*;

verus! {

broadcast use vstd::std_specs::hash::group_hash_axioms;

/// True for the bytes the mapping keeps as-is: the ranges `'!'..='~'`,
/// `0xA1..=0xAC` and `0xAE..=0xFF`.
pub open spec fn is_printable_byte(b: u8) -> bool {
    (33 <= b && b <= 126) || (161 <= b && b <= 172) || (174 <= b && b <= 255)
}

/// How many non-printable bytes lie strictly below `b`.
pub open spec fn fresh_before(b: int) -> int
    decreases b,
{
    if b <= 0 {
        0
    } else if is_printable_byte((b - 1) as u8) {
        fresh_before(b - 1)
    } else {
        fresh_before(b - 1) + 1
    }
}

/// The Unicode scalar value that the mapping assigns to byte `b`.
pub open spec fn symbol_code(b: u8) -> int {
    if is_printable_byte(b) {
        b as int
    } else {
        256 + fresh_before(b as int)
    }
}

/// The symbol character assigned to byte `b`.
pub open spec fn symbol_char(b: u8) -> char {
    symbol_code(b) as char
}

/// The first byte at or above `lo` whose symbol is `c`, if any.
pub open spec fn byte_of_char_from(c: char, lo: int) -> Option<u8>
    decreases 256 - lo,
{
    if lo < 0 || lo >= 256 {
        None
    } else if symbol_char(lo as u8) == c {
        Some(lo as u8)
    } else {
        byte_of_char_from(c, lo + 1)
    }
}

/// The byte whose symbol is `c`, if any.
pub open spec fn byte_of_char(c: char) -> Option<u8> {
    byte_of_char_from(c, 0)
}

pub proof fn lemma_fresh_before_bounds(b: int)
    requires
        0 <= b,
    ensures
        0 <= fresh_before(b) <= b,
    decreases b,
{
    if b > 0 {
        lemma_fresh_before_bounds(b - 1);
    }
}

proof fn lemma_fresh_before_monotone(b1: int, b2: int)
    requires
        0 <= b1 <= b2,
    ensures
        fresh_before(b1) <= fresh_before(b2),
    decreases b2,
{
    if b1 < b2 {
        lemma_fresh_before_monotone(b1, b2 - 1);
    }
}

/// The scalar values of symbols lie in `[33, 512)` and never equal the scalar
/// value of the space character.
pub proof fn lemma_symbol_code_bounds(b: u8)
    ensures
        33 <= symbol_code(b) < 512,
        symbol_code(b) != 32,
{
    lemma_fresh_before_bounds(b as int);
}

/// Casting the symbol character back to an integer recovers the symbol code.
pub proof fn lemma_symbol_char_code(b: u8)
    ensures
        symbol_char(b) as u32 == symbol_code(b),
{
    lemma_symbol_code_bounds(b);
}

/// Distinct bytes get distinct symbol characters.
pub proof fn lemma_symbol_char_injective(b1: u8, b2: u8)
    requires
        symbol_char(b1) == symbol_char(b2),
    ensures
        b1 == b2,
{
    lemma_symbol_char_code(b1);
    lemma_symbol_char_code(b2);
    if b1 != b2 {
        if !is_printable_byte(b1) && !is_printable_byte(b2) {
            if b1 < b2 {
                lemma_fresh_before_monotone(b1 as int + 1, b2 as int);
            } else {
                lemma_fresh_before_monotone(b2 as int + 1, b1 as int);
            }
        } else {
            lemma_fresh_before_bounds(b1 as int);
            lemma_fresh_before_bounds(b2 as int);
        }
    }
}

fn is_printable_exec(b: u8) -> (r: bool)
    ensures
        r == is_printable_byte(b),
{
    (33 <= b && b <= 126) || (161 <= b && b <= 172) || 174 <= b
}

fn fresh_count(b: u8) -> (n: u32)
    ensures
        n == fresh_before(b as int),
{
    let mut n: u32 = 0;
    let mut i: u16 = 0;
    while i < b as u16
        invariant
            0 <= i <= b,
            n == fresh_before(i as int),
            n <= i,
        decreases b - i,
    {
        proof {
            lemma_fresh_before_bounds(i as int + 1);
        }
        if !is_printable_exec(i as u8) {
            n = n + 1;
        }
        i = i + 1;
    }
    n
}

/// The symbol character assigned to byte `b`.
pub fn to_symbol(b: u8) -> (c: char)
    ensures
        c == symbol_char(b),
{
    proof {
        lemma_fresh_before_bounds(b as int);
    }
    let code: u32 = if is_printable_exec(b) {
        b as u32
    } else {
        256 + fresh_count(b)
    };
    proof {
        lemma_symbol_code_bounds(b);
        lemma_symbol_char_code(b);
    }
    char_from_code(code)
}

/// The byte whose symbol character is `c`, or `InvalidSymbol` if `c` is
/// outside the mapping's image.
pub fn to_byte(c: char) -> (r: Result<u8, TokenizerError>)
    ensures
        r matches Ok(b) ==> byte_of_char(c) == Some(b),
        r is Err ==> byte_of_char(c) is None && r == Err::<u8, TokenizerError>(
            TokenizerError::InvalidSymbol,
        ),
{
    let mut i: u16 = 0;
    while i < 256
        invariant
            0 <= i <= 256,
            byte_of_char(c) == byte_of_char_from(c, i as int),
        decreases 256 - i,
    {
        if to_symbol(i as u8) == c {
            return Ok(i as u8);
        }
        i = i + 1;
    }
    Err(TokenizerError::InvalidSymbol)
}

/// Mapping a byte to its symbol and back recovers the byte.
pub proof fn lemma_byte_of_symbol(b: u8)
    ensures
        byte_of_char(symbol_char(b)) == Some(b),
{
    lemma_byte_of_symbol_from(b, 0);
}

proof fn lemma_byte_of_symbol_from(b: u8, lo: int)
    requires
        0 <= lo <= b,
    ensures
        byte_of_char_from(symbol_char(b), lo) == Some(b),
    decreases 256 - lo,
{
    if lo < b {
        if symbol_char(lo as u8) == symbol_char(b) {
            lemma_symbol_char_injective(lo as u8, b);
        }
        lemma_byte_of_symbol_from(b, lo + 1);
    }
}

/// The byte-to-symbol table: every byte value is a key, mapped to its symbol
/// character.
pub fn bytes_to_unicode() -> (m: HashMap<u8, char>)
    ensures
        forall|b: u8| #[trigger] m@.contains_key(b) && m@[b] == symbol_char(b),
{
    let mut m: HashMap<u8, char> = HashMap::new();
    let mut i: u16 = 0;
    while i < 256
        invariant
            0 <= i <= 256,
            forall|b: u8| b < i ==> #[trigger] m@.contains_key(b) && m@[b] == symbol_char(b),
        decreases 256 - i,
    {
        let c = to_symbol(i as u8);
        m.insert(i as u8, c);
        i = i + 1;
    }
    assert(forall|b: u8| b < 256 ==> #[trigger] m@.contains_key(b) && m@[b] == symbol_char(b));
    m
}

} // verus!
