//! Polynomials over GF(32)
//!
//! A polynomial is an ordered sequence of field elements, high-degree
//! coefficient first. Reduction modulo the two fixed generator polynomials
//! (codex32, length 13; bech32, length 6) yields the residues that fill the
//! worksheet, and the HRP of a share contributes a fixed residue row.

use vstd::prelude::*;

use crate::fe::{fe_char, fe_valid, spec_add, spec_mul, Checksum, Fe};
use crate::text::push_char;

verus! {

/// All elements of a coefficient sequence lie in the field.
pub open spec fn seq_valid(s: Seq<u8>) -> bool {
    forall|i: int| 0 <= i < s.len() ==> s[i] < 32
}

/// The coefficient sequence a sequence of field elements stands for.
pub open spec fn fe_seq(s: Seq<Fe>) -> Seq<u8> {
    Seq::new(s.len(), |i: int| s[i]@)
}

/// `n` zero coefficients.
pub open spec fn zeros(n: nat) -> Seq<u8> {
    Seq::new(n, |i: int| 0u8)
}

/// The codex32 generator polynomial (13 coefficients, high to low).
pub open spec fn codex32_gen() -> Seq<u8> {
    seq![25u8, 27u8, 17u8, 8u8, 0u8, 25u8, 25u8, 25u8, 31u8, 27u8, 24u8, 16u8, 16u8]
}

/// The bech32 generator polynomial (6 coefficients, high to low).
pub open spec fn bech32_gen() -> Seq<u8> {
    seq![29u8, 22u8, 20u8, 21u8, 29u8, 18u8]
}

/// The generator polynomial of a checksum kind.
pub open spec fn generator(c: Checksum) -> Seq<u8> {
    match c {
        Checksum::Codex32 => codex32_gen(),
        Checksum::Bech32 => bech32_gen(),
    }
}

/// The generators have the advertised length and valid coefficients.
pub proof fn lemma_generator_shape(c: Checksum)
    ensures
        generator(c).len() == c.spec_len(),
        seq_valid(generator(c)),
        generator(c).len() > 0,
{
}

/// One step of long division: shift the accumulator left by one, append the
/// next dividend coefficient `c`, and XOR in `top * g` element-wise, where
/// `top` is the coefficient that fell off the high end.
pub open spec fn polymod_step(acc: Seq<u8>, c: u8, g: Seq<u8>) -> Seq<u8>
    recommends
        acc.len() == g.len(),
        g.len() > 0,
{
    Seq::new(
        g.len(),
        |i: int|
            spec_add(
                if i + 1 < g.len() {
                    acc[i + 1]
                } else {
                    c
                },
                spec_mul(acc[0], g[i]),
            ),
    )
}

/// The residue of a coefficient sequence modulo a generator `g`: fold
/// `polymod_step` over the dividend, high coefficient first, starting from an
/// all-zero accumulator of length `len(g)`. The result always has exactly
/// `len(g)` coefficients.
pub open spec fn spec_polymod(coeffs: Seq<u8>, g: Seq<u8>) -> Seq<u8>
    decreases coeffs.len(),
{
    if coeffs.len() == 0 {
        zeros(g.len())
    } else {
        polymod_step(spec_polymod(coeffs.drop_last(), g), coeffs.last(), g)
    }
}

/// A residue has exactly as many coefficients as the generator.
pub proof fn lemma_polymod_len(coeffs: Seq<u8>, g: Seq<u8>)
    ensures
        spec_polymod(coeffs, g).len() == g.len(),
{
}

/// XOR keeps values inside the field.
pub proof fn lemma_add_bound(a: u8, b: u8)
    requires
        a < 32,
        b < 32,
    ensures
        spec_add(a, b) < 32,
{
    assert(a < 32 && b < 32 ==> (a ^ b) < 32) by (bit_vector);
}

/// Multiplication by x keeps values inside the field.
pub proof fn lemma_mul_x_bound(b: u8)
    requires
        b < 32,
    ensures
        crate::fe::spec_mul_x(b) < 32,
{
    assert(b < 32 ==> (if ((b << 1) as u8) & 32 == 32 {
        (((b << 1) as u8) ^ 41) as u8
    } else {
        (b << 1) as u8
    }) < 32) by (bit_vector);
}

/// A product with a field element stays inside the field, whatever the
/// (possibly out-of-range) left factor.
pub proof fn lemma_mul_bound(a: u8, b: u8)
    requires
        b < 32,
    ensures
        spec_mul(a, b) < 32,
    decreases a,
{
    if a == 0 {
    } else {
        lemma_mul_x_bound(b);
        lemma_mul_bound(a / 2, crate::fe::spec_mul_x(b));
        let t: u8 = if a % 2 == 1 {
            b
        } else {
            0u8
        };
        let m = spec_mul(a / 2, crate::fe::spec_mul_x(b));
        assert(t < 32 && m < 32 ==> (t ^ m) < 32) by (bit_vector);
    }
}

/// Residues of valid polynomials modulo a valid generator are valid.
pub proof fn lemma_polymod_valid(coeffs: Seq<u8>, g: Seq<u8>)
    requires
        seq_valid(coeffs),
        seq_valid(g),
        g.len() > 0,
    ensures
        seq_valid(spec_polymod(coeffs, g)),
    decreases coeffs.len(),
{
    if coeffs.len() == 0 {
    } else {
        assert(seq_valid(coeffs.drop_last()));
        lemma_polymod_valid(coeffs.drop_last(), g);
        let acc = spec_polymod(coeffs.drop_last(), g);
        let c = coeffs.last();
        let r = polymod_step(acc, c, g);
        assert forall|i: int| 0 <= i < r.len() implies r[i] < 32 by {
            lemma_mul_bound(acc[0], g[i]);
            let sh: u8 = if i + 1 < g.len() {
                acc[i + 1]
            } else {
                c
            };
            lemma_add_bound(sh, spec_mul(acc[0], g[i]));
        }
    }
}


/// The lower-case form of an ASCII byte, as `u8::to_ascii_lowercase`
/// defines it: letters `A..Z` move up by 32, all else is unchanged.
pub open spec fn lower_u8(b: u8) -> u8 {
    if 65 <= b && b <= 90 {
        (b + 32) as u8
    } else {
        b
    }
}

/// The high 3 bits of the lower-cased ASCII code of a character.
pub open spec fn hi_of(c: char) -> u8 {
    (lower_u8(c as u8) / 32) as u8
}

/// The low 5 bits of the lower-cased ASCII code of a character.
pub open spec fn lo_of(c: char) -> u8 {
    (lower_u8(c as u8) % 32) as u8
}

/// Coefficient `i` of the padded HRP polynomial
/// `[1, hi(s[0]), ..., hi(s[h-1]), 0, lo(s[0]), ..., lo(s[h-1]), 0 x l]`.
pub open spec fn hrp_coeff(s: Seq<char>, l: nat, i: int) -> u8 {
    if i == 0 {
        1u8
    } else if i <= s.len() {
        hi_of(s[i - 1])
    } else if i == s.len() + 1 {
        0u8
    } else if i <= 2 * s.len() + 1 {
        lo_of(s[i - s.len() - 2])
    } else {
        0u8
    }
}

/// The padded HRP polynomial: a leading one, the high bits of the
/// lower-cased HRP characters, a zero, their low five bits, and `l`
/// trailing zeros.
pub open spec fn hrp_expanded(s: Seq<char>, l: nat) -> Seq<u8> {
    Seq::new(2 * s.len() + 2 + l, |i: int| hrp_coeff(s, l, i))
}

/// The residue of the padded HRP polynomial modulo the generator of `c`.
pub open spec fn spec_hrp_residue(s: Seq<char>, c: Checksum) -> Seq<u8> {
    spec_polymod(hrp_expanded(s, c.spec_len()), generator(c))
}

/// The HRP residue is a valid generator-length coefficient sequence.
pub proof fn lemma_hrp_residue_valid(s: Seq<char>, c: Checksum)
    ensures
        seq_valid(spec_hrp_residue(s, c)),
        spec_hrp_residue(s, c).len() == c.spec_len(),
{
    let l = c.spec_len();
    let e = hrp_expanded(s, l);
    assert forall|i: int| 0 <= i < e.len() implies e[i] < 32 by {
        assert(e[i] == hrp_coeff(s, l, i));
    }
    lemma_generator_shape(c);
    lemma_polymod_valid(e, generator(c));
    lemma_polymod_len(e, generator(c));
}

/// The symbol string of a coefficient sequence.
pub open spec fn symbols_of(s: Seq<u8>) -> Seq<char> {
    Seq::new(s.len(), |i: int| fe_char(s[i]))
}

/// A polynomial in the bech32 field.
#[derive(Clone, Debug)]
pub struct Poly(Vec<Fe>);

impl View for Poly {
    type V = Seq<u8>;

    closed spec fn view(&self) -> Seq<u8> {
        fe_seq(self.0@)
    }
}

/// All coefficients of the polynomial lie in the field.
pub open spec fn poly_valid(p: &Poly) -> bool {
    seq_valid(p@)
}

impl Poly {
    /// The empty (zero-length) polynomial.
    pub fn new() -> (r: Poly)
        ensures
            r@ == Seq::<u8>::empty(),
    {
        let v: Vec<Fe> = Vec::new();
        let r = Poly(v);
        proof {
            assert(r@ =~= Seq::<u8>::empty());
        }
        r
    }

    /// The constant polynomial with a single coefficient.
    pub fn from_fe(fe: Fe) -> (r: Poly)
        ensures
            r@ =~= seq![fe@],
    {
        let mut v: Vec<Fe> = Vec::new();
        v.push(fe);
        Poly(v)
    }

    /// The number of coefficients.
    pub fn len(&self) -> (n: usize)
        ensures
            n == self@.len(),
    {
        self.0.len()
    }

    /// The coefficient at `idx`; indexing past the end yields zero.
    pub fn get(&self, idx: usize) -> (r: Fe)
        ensures
            r@ == if idx < self@.len() {
                self@[idx as int]
            } else {
                0
            },
    {
        if idx < self.0.len() {
            self.0[idx]
        } else {
            Fe::zero()
        }
    }

    /// Shift the polynomial left a number of spaces (append `n` zeros).
    pub fn mul_by_x(&mut self, n: usize)
        ensures
            final(self)@ =~= old(self)@ + zeros(n as nat),
    {
        let mut i: usize = 0;
        while i < n
            invariant
                i <= n,
                self@ =~= old(self)@ + zeros(i as nat),
            decreases n - i,
        {
            let ghost pre = self.0@;
            let z = Fe::zero();
            self.0.push(z);
            i = i + 1;
            proof {
                assert(self.0@ == pre.push(z));
                assert(fe_seq(pre.push(z)) =~= fe_seq(pre) + seq![z@]);
                assert(self@ =~= old(self)@ + zeros(i as nat));
            }
        }
    }

    /// Shift the polynomial left by one and add a new element (append `fe`).
    pub fn mul_by_x_then_add(&mut self, fe: Fe)
        ensures
            final(self)@ =~= old(self)@ + seq![fe@],
    {
        self.0.push(fe);
        proof {
            assert(self@ =~= old(self)@ + seq![fe@]);
        }
    }

    /// The coefficients of the polynomial, high degree first.
    pub fn iter(&self) -> (r: &Vec<Fe>)
        ensures
            fe_seq(r@) == self@,
    {
        &self.0
    }

    /// Reduce this polynomial modulo a generator polynomial.
    fn polymod(&self, modulus: &Vec<Fe>) -> (r: Poly)
        requires
            poly_valid(self),
            modulus@.len() > 0,
            seq_valid(fe_seq(modulus@)),
        ensures
            r@ == spec_polymod(self@, fe_seq(modulus@)),
            seq_valid(r@),
    {
        let ghost g = fe_seq(modulus@);
        let l = modulus.len();
        let mut acc: Vec<Fe> = Vec::new();
        let mut i: usize = 0;
        while i < l
            invariant
                i <= l,
                acc@.len() == i,
                forall|j: int| 0 <= j < i ==> acc@[j]@ == 0,
            decreases l - i,
        {
            acc.push(Fe::zero());
            i = i + 1;
        }
        proof {
            assert(fe_seq(acc@) =~= spec_polymod(self@.take(0), g));
        }
        let mut n: usize = 0;
        while n < self.0.len()
            invariant
                n <= self.0.len(),
                seq_valid(self@),
                0 < l,
                l == modulus@.len(),
                g == fe_seq(modulus@),
                seq_valid(g),
                acc@.len() == l,
                fe_seq(acc@) == spec_polymod(self@.take(n as int), g),
                seq_valid(fe_seq(acc@)),
            decreases self.0.len() - n,
        {
            let ghost acc0 = fe_seq(acc@);
            let top = acc[0];
            proof {
                assert(fe_seq(acc@)[0] == acc@[0]@);
                assert(fe_valid(top));
            }
            let c = self.0[n];
            proof {
                assert(c@ == self@[n as int]);
                assert(c@ < 32);
            }
            let ghost cv = c@;
            let mut next: Vec<Fe> = Vec::new();
            let mut i: usize = 0;
            while i < l
                invariant
                    i <= l,
                    0 < l,
                    l == modulus@.len(),
                    g == fe_seq(modulus@),
                    seq_valid(g),
                    acc@.len() == l,
                    acc0 == fe_seq(acc@),
                    top == acc@[0],
                    fe_valid(top),
                    seq_valid(fe_seq(acc@)),
                    next@.len() == i,
                    forall|j: int|
                        0 <= j < i ==> next@[j]@ == polymod_step(acc0, c@, g)[j],
                decreases l - i,
            {
                let sh = if i + 1 < l {
                    acc[i + 1]
                } else {
                    c
                };
                proof {
                    assert(g[i as int] == modulus@[i as int]@);
                    assert(fe_valid(modulus@[i as int]));
                }
                let m = top.mul(modulus[i]);
                proof {
                    lemma_mul_bound(top@, modulus@[i as int]@);
                }
                next.push(sh.add(m));
                i = i + 1;
            }
            proof {
                assert(fe_seq(next@) =~= polymod_step(acc0, c@, g));
                assert(self@.take(n + 1).drop_last() =~= self@.take(n as int));
                assert(self@.take(n + 1).last() == c@);
                assert(spec_polymod(self@.take(n + 1), g) == polymod_step(
                    spec_polymod(self@.take(n as int), g),
                    c@,
                    g,
                ));
                lemma_polymod_valid_step(acc0, c@, g);
            }
            acc = next;
            n = n + 1;
        }
        proof {
            assert(self@.take(self.0.len() as int) =~= self@);
        }
        Poly(acc)
    }

    /// Reduce this polynomial modulo the codex32 generator polynomial.
    pub fn codex32_polymod(&self) -> (r: Poly)
        requires
            poly_valid(self),
        ensures
            r@ == spec_polymod(self@, codex32_gen()),
            r@.len() == 13,
            seq_valid(r@),
    {
        let g = codex32_gen_vec();
        proof {
            assert(fe_seq(g@) == codex32_gen());
            assert(codex32_gen().len() == 13);
        }
        self.polymod(&g)
    }

    /// Reduce this polynomial modulo the bech32 generator polynomial.
    pub fn bech32_polymod(&self) -> (r: Poly)
        requires
            poly_valid(self),
        ensures
            r@ == spec_polymod(self@, bech32_gen()),
            r@.len() == 6,
            seq_valid(r@),
    {
        let g = bech32_gen_vec();
        proof {
            assert(fe_seq(g@) == bech32_gen());
            assert(bech32_gen().len() == 6);
        }
        self.polymod(&g)
    }

    /// Convert a HRP into a polynomial residue (codex32).
    pub fn codex32_hrp_residue(s: &str) -> (r: Poly)
        requires
            s.is_ascii(),
        ensures
            r@ == spec_hrp_residue(s@, Checksum::Codex32),
            seq_valid(r@),
            r@.len() == 13,
    {
        Poly::hrp_residue(s, Checksum::Codex32)
    }

    /// Convert a HRP into a polynomial residue (bech32).
    pub fn bech32_hrp_residue(s: &str) -> (r: Poly)
        requires
            s.is_ascii(),
        ensures
            r@ == spec_hrp_residue(s@, Checksum::Bech32),
            seq_valid(r@),
            r@.len() == 6,
    {
        Poly::hrp_residue(s, Checksum::Bech32)
    }

    /// Convert a HRP into a polynomial residue modulo the generator of `c`.
    fn hrp_residue(s: &str, c: Checksum) -> (r: Poly)
        requires
            s.is_ascii(),
        ensures
            r@ == spec_hrp_residue(s@, c),
            seq_valid(r@),
            r@.len() == c.spec_len(),
    {
        proof {
            vstd::string::is_ascii_spec_bytes(s);
        }
        let bytes = s.as_bytes();
        let ghost l = c.spec_len();
        let mut v: Vec<Fe> = Vec::new();
        v.push(Fe::from_bin(1));
        let mut i: usize = 0;
        while i < bytes.len()
            invariant
                i <= bytes.len(),
                bytes@.len() == s@.len(),
                forall|j: int| 0 <= j < bytes@.len() ==> bytes@[j] == s@[j] as u8,
                v@.len() == 1 + i,
                forall|j: int|
                    0 <= j < v@.len() ==> #[trigger] v@[j]@ == hrp_coeff(s@, l, j) && v@[j]@ < 32,
            decreases bytes.len() - i,
        {
            let b = bytes[i];
            let lb = if 65 <= b && b <= 90 {
                b + 32
            } else {
                b
            };
            v.push(Fe::from_bin(lb / 32));
            i = i + 1;
        }
        v.push(Fe::from_bin(0));
        let mut i2: usize = 0;
        while i2 < bytes.len()
            invariant
                i2 <= bytes.len(),
                bytes@.len() == s@.len(),
                forall|j: int| 0 <= j < bytes@.len() ==> bytes@[j] == s@[j] as u8,
                v@.len() == 2 + bytes@.len() + i2,
                forall|j: int|
                    0 <= j < v@.len() ==> #[trigger] v@[j]@ == hrp_coeff(s@, l, j) && v@[j]@ < 32,
            decreases bytes.len() - i2,
        {
            let b = bytes[i2];
            let lb = if 65 <= b && b <= 90 {
                b + 32
            } else {
                b
            };
            v.push(Fe::from_bin(lb % 32));
            i2 = i2 + 1;
        }
        let pad = c.len();
        let mut i3: usize = 0;
        while i3 < pad
            invariant
                i3 <= pad,
                pad == l,
                bytes@.len() == s@.len(),
                v@.len() == 2 + 2 * bytes@.len() + i3,
                forall|j: int|
                    0 <= j < v@.len() ==> #[trigger] v@[j]@ == hrp_coeff(s@, l, j) && v@[j]@ < 32,
            decreases pad - i3,
        {
            v.push(Fe::from_bin(0));
            i3 = i3 + 1;
        }
        let p = Poly(v);
        proof {
            assert(p@ =~= hrp_expanded(s@, l));
            lemma_generator_shape(c);
        }
        let g = match c {
            Checksum::Codex32 => codex32_gen_vec(),
            Checksum::Bech32 => bech32_gen_vec(),
        };
        proof {
            assert(fe_seq(g@) == generator(c));
            assert(g@.len() == fe_seq(g@).len());
            assert(generator(c).len() == c.spec_len());
        }
        p.polymod(&g)
    }

    /// The symbol string of the polynomial, one upper-case alphabet
    /// character per coefficient.
    pub fn to_str(&self) -> (r: String)
        requires
            poly_valid(self),
        ensures
            r@ =~= symbols_of(self@),
    {
        let mut out = String::new();
        let mut i: usize = 0;
        while i < self.0.len()
            invariant
                i <= self.0.len(),
                seq_valid(self@),
                out@.len() == i,
                forall|j: int| 0 <= j < i ==> out@[j] == symbols_of(self@)[j],
            decreases self.0.len() - i,
        {
            proof {
                assert(self@[i as int] == self.0@[i as int]@);
            }
            let c = self.0[i].to_char();
            push_char(&mut out, c);
            i = i + 1;
        }
        out
    }
}

/// Validity of one division step, for use inside the division loop.
proof fn lemma_polymod_valid_step(acc: Seq<u8>, c: u8, g: Seq<u8>)
    requires
        seq_valid(acc),
        acc.len() == g.len(),
        c < 32,
        seq_valid(g),
        g.len() > 0,
    ensures
        seq_valid(polymod_step(acc, c, g)),
{
    let r = polymod_step(acc, c, g);
    assert forall|i: int| 0 <= i < r.len() implies r[i] < 32 by {
        lemma_mul_bound(acc[0], g[i]);
        let sh: u8 = if i + 1 < g.len() {
            acc[i + 1]
        } else {
            c
        };
        lemma_add_bound(sh, spec_mul(acc[0], g[i]));
    }
}

/// The codex32 generator as an executable vector of field elements.
fn codex32_gen_vec() -> (v: Vec<Fe>)
    ensures
        fe_seq(v@) =~= codex32_gen(),
{
    let mut v: Vec<Fe> = Vec::new();
    v.push(Fe::from_bin(25));
    v.push(Fe::from_bin(27));
    v.push(Fe::from_bin(17));
    v.push(Fe::from_bin(8));
    v.push(Fe::from_bin(0));
    v.push(Fe::from_bin(25));
    v.push(Fe::from_bin(25));
    v.push(Fe::from_bin(25));
    v.push(Fe::from_bin(31));
    v.push(Fe::from_bin(27));
    v.push(Fe::from_bin(24));
    v.push(Fe::from_bin(16));
    v.push(Fe::from_bin(16));
    v
}

/// The bech32 generator as an executable vector of field elements.
fn bech32_gen_vec() -> (v: Vec<Fe>)
    ensures
        fe_seq(v@) =~= bech32_gen(),
{
    let mut v: Vec<Fe> = Vec::new();
    v.push(Fe::from_bin(29));
    v.push(Fe::from_bin(22));
    v.push(Fe::from_bin(20));
    v.push(Fe::from_bin(21));
    v.push(Fe::from_bin(29));
    v.push(Fe::from_bin(18));
    v
}

} // verus!
