//! Field arithmetic
//!
//! GF(32) elements, the bech32 alphabet bijection, and the checksum kinds.
//! The field is GF(2)[x] / (x^5 + x^3 + 1): addition is XOR and
//! multiplication is carry-less (Russian peasant) with pentanomial reduction.

use vstd::prelude::*;

verus! {

/// The checksums we support.
#[derive(Copy, Clone, PartialEq, Eq, Debug, Structural)]
pub enum Checksum {
    Codex32,
    Bech32,
}

impl Checksum {
    /// Length of the generator polynomial.
    pub open spec fn spec_len(self) -> nat {
        match self {
            Checksum::Codex32 => 13,
            Checksum::Bech32 => 6,
        }
    }

    /// Length of the generator polynomial.
    pub fn len(&self) -> (n: usize)
        ensures
            n == self.spec_len(),
    {
        match *self {
            Checksum::Codex32 => 13,
            Checksum::Bech32 => 6,
        }
    }
}

/// A single field element in the bech32 field.
#[derive(Copy, Clone, PartialEq, Eq, Debug, Structural)]
pub struct Fe(u8);

impl View for Fe {
    type V = u8;

    closed spec fn view(&self) -> u8 {
        self.0
    }
}

/// A field element is one of the 32 values of GF(32).
pub open spec fn fe_valid(fe: Fe) -> bool {
    fe@ < 32
}

/// The upper-case symbol of the element with binary representation `n`, in
/// the bech32 alphabet `QPZRY9X8GF2TVDW0S3JN54KHCE6MUA7L`.
pub open spec fn fe_char(n: u8) -> char {
    if n == 0 { 'Q' }
    else if n == 1 { 'P' }
    else if n == 2 { 'Z' }
    else if n == 3 { 'R' }
    else if n == 4 { 'Y' }
    else if n == 5 { '9' }
    else if n == 6 { 'X' }
    else if n == 7 { '8' }
    else if n == 8 { 'G' }
    else if n == 9 { 'F' }
    else if n == 10 { '2' }
    else if n == 11 { 'T' }
    else if n == 12 { 'V' }
    else if n == 13 { 'D' }
    else if n == 14 { 'W' }
    else if n == 15 { '0' }
    else if n == 16 { 'S' }
    else if n == 17 { '3' }
    else if n == 18 { 'J' }
    else if n == 19 { 'N' }
    else if n == 20 { '5' }
    else if n == 21 { '4' }
    else if n == 22 { 'K' }
    else if n == 23 { 'H' }
    else if n == 24 { 'C' }
    else if n == 25 { 'E' }
    else if n == 26 { '6' }
    else if n == 27 { 'M' }
    else if n == 28 { 'U' }
    else if n == 29 { 'A' }
    else if n == 30 { '7' }
    else { 'L' }
}

/// The element a given upper-case symbol stands for, if any.
pub open spec fn fe_of_char(c: char) -> Option<u8> {
    if c == 'Q' { Some(0u8) }
    else if c == 'P' { Some(1u8) }
    else if c == 'Z' { Some(2u8) }
    else if c == 'R' { Some(3u8) }
    else if c == 'Y' { Some(4u8) }
    else if c == '9' { Some(5u8) }
    else if c == 'X' { Some(6u8) }
    else if c == '8' { Some(7u8) }
    else if c == 'G' { Some(8u8) }
    else if c == 'F' { Some(9u8) }
    else if c == '2' { Some(10u8) }
    else if c == 'T' { Some(11u8) }
    else if c == 'V' { Some(12u8) }
    else if c == 'D' { Some(13u8) }
    else if c == 'W' { Some(14u8) }
    else if c == '0' { Some(15u8) }
    else if c == 'S' { Some(16u8) }
    else if c == '3' { Some(17u8) }
    else if c == 'J' { Some(18u8) }
    else if c == 'N' { Some(19u8) }
    else if c == '5' { Some(20u8) }
    else if c == '4' { Some(21u8) }
    else if c == 'K' { Some(22u8) }
    else if c == 'H' { Some(23u8) }
    else if c == 'C' { Some(24u8) }
    else if c == 'E' { Some(25u8) }
    else if c == '6' { Some(26u8) }
    else if c == 'M' { Some(27u8) }
    else if c == 'U' { Some(28u8) }
    else if c == 'A' { Some(29u8) }
    else if c == '7' { Some(30u8) }
    else if c == 'L' { Some(31u8) }
    else { None }
}

/// Addition in GF(32) is XOR of the binary representations.
pub open spec fn spec_add(a: u8, b: u8) -> u8 {
    a ^ b
}

/// Multiplication of an element by x, with pentanomial reduction: double,
/// and when bit 5 sets, XOR in bits {5, 3, 0} (the pentanomial, 41).
pub open spec fn spec_mul_x(b: u8) -> u8
    recommends
        b < 32,
{
    let d = (b << 1) as u8;
    if d & 32 == 32 {
        (d ^ 41) as u8
    } else {
        d
    }
}

/// Multiplication in GF(32): Russian-peasant over the bits of `a`.
pub open spec fn spec_mul(a: u8, b: u8) -> u8
    decreases a,
{
    if a == 0 {
        0
    } else {
        (if a % 2 == 1 { b } else { 0 }) ^ spec_mul(a / 2, spec_mul_x(b))
    }
}

impl Fe {
    /// Construct the additive identity of the field.
    pub fn zero() -> (r: Self)
        ensures
            r@ == 0,
    {
        Fe(0)
    }

    /// Construct the multiplicative identity of the field.
    pub fn one() -> (r: Self)
        ensures
            r@ == 1,
    {
        Fe(1)
    }

    /// Construct a field element from its binary expression.
    pub fn from_bin(n: u8) -> (r: Self)
        requires
            n < 32,
        ensures
            r@ == n,
    {
        Fe(n)
    }

    /// Add another element (XOR of representations).
    pub fn add(self, other: Fe) -> (r: Fe)
        ensures
            r@ == spec_add(self@, other@),
    {
        Fe(self.0 ^ other.0)
    }

    /// Multiply by another element.
    pub fn mul(self, other: Fe) -> (r: Fe)
        requires
            fe_valid(self),
            fe_valid(other),
        ensures
            r@ == spec_mul(self@, other@),
    {
        let mut a = self.0;
        let mut fe2 = other.0;
        let mut ret: u8 = 0;
        proof {
            assert(0u8 ^ spec_mul(a, fe2) == spec_mul(a, fe2)) by {
                let m = spec_mul(a, fe2);
                assert(0u8 ^ m == m) by (bit_vector);
            }
        }
        while a > 0
            invariant
                spec_mul(self@, other@) == (ret ^ spec_mul(a, fe2)),
            decreases a,
        {
            let ghost r0 = ret;
            let ghost a0 = a;
            let ghost b0 = fe2;
            if a & 1 == 1 {
                ret ^= fe2;
            }
            a >>= 1;
            fe2 <<= 1;
            if fe2 & 32 == 32 {
                fe2 ^= 41;
            }
            proof {
                assert(a0 % 2 == 1 <==> a0 & 1 == 1) by (bit_vector);
                assert(a0 / 2 == a0 >> 1) by (bit_vector);
                assert(fe2 == spec_mul_x(b0));
                let m = spec_mul(a0 / 2, spec_mul_x(b0));
                let t: u8 = if a0 % 2 == 1 { b0 } else { 0u8 };
                assert((r0 ^ t) ^ m == r0 ^ (t ^ m)) by (bit_vector);
                assert(r0 ^ 0u8 == r0) by (bit_vector);
                assert(a0 > 0 ==> spec_mul(a0, b0) == (t ^ m));
            }
        }
        proof {
            assert(spec_mul(0u8, fe2) == 0);
            assert(ret ^ 0u8 == ret) by (bit_vector);
        }
        Fe(ret)
    }

    /// The upper-case alphabet symbol of this element.
    pub fn to_char(self) -> (c: char)
        requires
            fe_valid(self),
        ensures
            c == fe_char(self@),
    {
        match self.0 {
            0 => 'Q',
            1 => 'P',
            2 => 'Z',
            3 => 'R',
            4 => 'Y',
            5 => '9',
            6 => 'X',
            7 => '8',
            8 => 'G',
            9 => 'F',
            10 => '2',
            11 => 'T',
            12 => 'V',
            13 => 'D',
            14 => 'W',
            15 => '0',
            16 => 'S',
            17 => '3',
            18 => 'J',
            19 => 'N',
            20 => '5',
            21 => '4',
            22 => 'K',
            23 => 'H',
            24 => 'C',
            25 => 'E',
            26 => '6',
            27 => 'M',
            28 => 'U',
            29 => 'A',
            30 => '7',
            _ => 'L',
        }
    }

    /// Parse an alphabet symbol, accepting either case; `None` when the
    /// upper-cased character is not in the alphabet.
    pub fn from_char(c: char) -> (r: Option<Fe>)
        ensures
            match r {
                Some(fe) => fe_of_char(spec_upper(c)) == Some(fe@) && fe_valid(fe),
                None => fe_of_char(spec_upper(c)) is None,
            },
    {
        let cu = upper_char(c);
        match cu {
            'Q' => Some(Fe(0)),
            'P' => Some(Fe(1)),
            'Z' => Some(Fe(2)),
            'R' => Some(Fe(3)),
            'Y' => Some(Fe(4)),
            '9' => Some(Fe(5)),
            'X' => Some(Fe(6)),
            '8' => Some(Fe(7)),
            'G' => Some(Fe(8)),
            'F' => Some(Fe(9)),
            '2' => Some(Fe(10)),
            'T' => Some(Fe(11)),
            'V' => Some(Fe(12)),
            'D' => Some(Fe(13)),
            'W' => Some(Fe(14)),
            '0' => Some(Fe(15)),
            'S' => Some(Fe(16)),
            '3' => Some(Fe(17)),
            'J' => Some(Fe(18)),
            'N' => Some(Fe(19)),
            '5' => Some(Fe(20)),
            '4' => Some(Fe(21)),
            'K' => Some(Fe(22)),
            'H' => Some(Fe(23)),
            'C' => Some(Fe(24)),
            'E' => Some(Fe(25)),
            '6' => Some(Fe(26)),
            'M' => Some(Fe(27)),
            'U' => Some(Fe(28)),
            'A' => Some(Fe(29)),
            '7' => Some(Fe(30)),
            'L' => Some(Fe(31)),
            _ => None,
        }
    }
}

/// Two field elements are equal exactly when their binary views are.
pub proof fn lemma_fe_eq(a: Fe, b: Fe)
    ensures
        (a == b) <==> (a@ == b@),
{
}

/// The upper-case form of an ASCII character, as `char::to_ascii_uppercase`
/// defines it: letters `a..z` move down by 32, all else is unchanged.
pub open spec fn spec_upper(c: char) -> char {
    if 'a' <= c && c <= 'z' {
        ((c as u32 - 32) as u8) as char
    } else {
        c
    }
}

/// Upper-case an ASCII character.
pub fn upper_char(c: char) -> (r: char)
    ensures
        r == spec_upper(c),
{
    if 'a' <= c && c <= 'z' {
        let u = c as u32;
        ((u - 32) as u8) as char
    } else {
        c
    }
}


/// Addition is commutative: `a + b == b + a`.
pub proof fn lemma_add_comm(a: u8, b: u8)
    ensures
        spec_add(a, b) == spec_add(b, a),
{
    assert((a ^ b) == (b ^ a)) by (bit_vector);
}

/// Every element is its own additive inverse: `a + a == 0`.
pub proof fn lemma_add_self(a: u8)
    ensures
        spec_add(a, a) == 0,
{
    assert((a ^ a) == 0) by (bit_vector);
}

/// The Russian-peasant product written out: one term per bit of `a`, the
/// left factor of each term a repeated multiplication of `b` by x.
pub open spec fn spec_mul_closed(a: u8, b: u8) -> u8 {
    (if a % 2 == 1 {
        b
    } else {
        0
    }) ^ ((if (a / 2) % 2 == 1 {
        spec_mul_x(b)
    } else {
        0
    }) ^ ((if (a / 2 / 2) % 2 == 1 {
        spec_mul_x(spec_mul_x(b))
    } else {
        0
    }) ^ ((if (a / 2 / 2 / 2) % 2 == 1 {
        spec_mul_x(spec_mul_x(spec_mul_x(b)))
    } else {
        0
    }) ^ (if (a / 2 / 2 / 2 / 2) % 2 == 1 {
        spec_mul_x(spec_mul_x(spec_mul_x(spec_mul_x(b))))
    } else {
        0
    }))))
}

/// One unfolding of the Russian-peasant recursion, valid for zero too.
proof fn lemma_mul_unfold(a: u8, b: u8)
    ensures
        spec_mul(a, b) == ((if a % 2 == 1 {
            b
        } else {
            0u8
        }) ^ spec_mul(a / 2, spec_mul_x(b))),
{
    if a == 0 {
        let m = spec_mul(0u8, spec_mul_x(b));
        assert(m == 0);
        assert(0u8 ^ 0u8 == 0u8) by (bit_vector);
    }
}

/// For field elements the recursion runs out after five bits: the product
/// equals its closed five-term form.
pub proof fn lemma_mul_closed(a: u8, b: u8)
    requires
        a < 32,
    ensures
        spec_mul(a, b) == spec_mul_closed(a, b),
{
    let b1 = spec_mul_x(b);
    let b2 = spec_mul_x(b1);
    let b3 = spec_mul_x(b2);
    let b4 = spec_mul_x(b3);
    let b5 = spec_mul_x(b4);
    lemma_mul_unfold(a, b);
    lemma_mul_unfold(a / 2, b1);
    lemma_mul_unfold(a / 2 / 2, b2);
    lemma_mul_unfold(a / 2 / 2 / 2, b3);
    lemma_mul_unfold(a / 2 / 2 / 2 / 2, b4);
    assert(a / 2 / 2 / 2 / 2 / 2 == 0);
    assert(spec_mul(a / 2 / 2 / 2 / 2 / 2, b5) == 0);
    let t4: u8 = if (a / 2 / 2 / 2 / 2) % 2 == 1 {
        b4
    } else {
        0u8
    };
    assert(t4 ^ 0u8 == t4) by (bit_vector);
}

/// One is the multiplicative identity: `a * 1 == a` and `1 * a == a`.
pub proof fn lemma_mul_one(a: u8)
    requires
        a < 32,
    ensures
        spec_mul(a, 1) == a,
        spec_mul(1, a) == a,
{
    lemma_mul_closed(a, 1);
    lemma_mul_closed(1, a);
    assert(a < 32 ==> spec_mul_closed(a, 1) == a) by (bit_vector);
    assert(a < 32 ==> spec_mul_closed(1, a) == a) by (bit_vector);
}

/// Zero annihilates: `a * 0 == 0` and `0 * a == 0`.
pub proof fn lemma_mul_zero(a: u8)
    requires
        a < 32,
    ensures
        spec_mul(a, 0) == 0,
        spec_mul(0, a) == 0,
{
    lemma_mul_closed(a, 0);
    assert(a < 32 ==> spec_mul_closed(a, 0) == 0) by (bit_vector);
}

/// Multiplication is commutative: `a * b == b * a`.
pub proof fn lemma_mul_comm(a: u8, b: u8)
    requires
        a < 32,
        b < 32,
    ensures
        spec_mul(a, b) == spec_mul(b, a),
{
    lemma_mul_closed(a, b);
    lemma_mul_closed(b, a);
    assert(a < 32 && b < 32 ==> spec_mul_closed(a, b) == spec_mul_closed(b, a)) by (bit_vector);
}

/// Multiplication stays in the field (closed-form restatement used by the
/// associativity proof).
proof fn lemma_mul_valid(a: u8, b: u8)
    requires
        a < 32,
        b < 32,
    ensures
        spec_mul(a, b) < 32,
{
    lemma_mul_closed(a, b);
    assert(a < 32 && b < 32 ==> spec_mul_closed(a, b) < 32) by (bit_vector);
}

/// Multiplication is associative: `(a * b) * c == a * (b * c)`.
#[verifier::rlimit(100)]
pub proof fn lemma_mul_assoc(a: u8, b: u8, c: u8)
    requires
        a < 32,
        b < 32,
        c < 32,
    ensures
        spec_mul(spec_mul(a, b), c) == spec_mul(a, spec_mul(b, c)),
{
    lemma_mul_valid(a, b);
    lemma_mul_valid(b, c);
    lemma_mul_closed(a, b);
    lemma_mul_closed(b, c);
    lemma_mul_closed(spec_mul(a, b), c);
    lemma_mul_closed(a, spec_mul(b, c));
    assert(a < 32 && b < 32 && c < 32 ==> spec_mul_closed(spec_mul_closed(a, b), c)
        == spec_mul_closed(a, spec_mul_closed(b, c))) by (bit_vector);
}

/// Parsing a symbol and printing it again gives the same upper-case symbol.
pub proof fn lemma_char_fe_roundtrip(c: char)
    ensures
        fe_of_char(c) is Some ==> fe_char(fe_of_char(c)->0) == c,
{
}

/// Any character whose upper-cased form is in the alphabet round-trips to
/// that upper-case symbol: typing a lower-case symbol preserves the cell's
/// character up to case.
pub proof fn lemma_symbol_normalises(c: char)
    ensures
        fe_of_char(spec_upper(c)) is Some ==> fe_char(fe_of_char(spec_upper(c))->0) == spec_upper(
            c,
        ),
{
    lemma_char_fe_roundtrip(spec_upper(c));
}

/// Alphabet symbols are their own upper case, are not the blank or the
/// separator character, and parse back to their element.
pub proof fn lemma_symbol_char_facts(n: u8)
    requires
        n < 32,
    ensures
        fe_char(n) != '_',
        fe_char(n) != '-',
        spec_upper(fe_char(n)) == fe_char(n),
        fe_of_char(fe_char(n)) == Some(n),
        '\0' <= fe_char(n) <= '\u{7f}',
{
    lemma_fe_char_roundtrip(n);
}

/// Printing an element and parsing the symbol gives the element back.
pub proof fn lemma_fe_char_roundtrip(n: u8)
    requires
        n < 32,
    ensures
        fe_of_char(fe_char(n)) == Some(n),
{
}

} // verus!

