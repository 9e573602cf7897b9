//! Field arithmetic and polynomial tests.

use volvelle::fe::{Checksum, Fe};
use volvelle::poly::Poly;

#[test]
fn polymod() {
    assert_eq!(Poly::codex32_hrp_residue("ms").to_str(), "33XW87RR3YLJG");
    assert_eq!(Poly::codex32_hrp_residue("MS").to_str(), "33XW87RR3YLJG");
    assert_eq!(Poly::bech32_hrp_residue("ms").to_str(), "69EXR9");

    let mut zg = Poly::from_fe(Fe::from_bin(2));
    zg.mul_by_x_then_add(Fe::from_bin(8));
    zg.mul_by_x(6);
    assert_eq!(zg.to_str(), "ZGQQQQQQ");
    assert_eq!(zg.bech32_polymod().to_str(), "Q863G3");
}

#[test]
fn rtt_fe() {
    for ch in "ACDEFGHJKLMNPQRSTUVWXYZ0234567890".chars() {
        assert_eq!(ch, Fe::from_char(ch).unwrap().to_char());
    }

    for n in 0..32 {
        let fe = Fe::from_bin(n);
        assert_eq!(
            fe.to_char(),
            Fe::from_char(fe.to_char()).unwrap().to_char()
        );
    }
}

#[test]
fn symbol_parse_is_case_insensitive() {
    // Parsing accepts either case and normalises to the upper-case symbol.
    assert_eq!(Fe::from_char('a').unwrap().to_char(), 'A');
    assert_eq!(Fe::from_char('A').unwrap().to_char(), 'A');
    assert_eq!(Fe::from_char('q').unwrap().to_char(), 'Q');
    assert!(Fe::from_char('b').is_none());
    assert!(Fe::from_char('B').is_none());
    assert!(Fe::from_char('!').is_none());
    assert!(Fe::from_char('1').is_none());
    assert!(Fe::from_char('i').is_none());
    assert!(Fe::from_char('o').is_none());
}

#[test]
fn field_axioms_exhaustive() {
    // a + b == b + a, a + a == 0
    for a in 0..32u8 {
        for b in 0..32u8 {
            let fa = Fe::from_bin(a);
            let fb = Fe::from_bin(b);
            assert_eq!(fa.add(fb).to_char(), fb.add(fa).to_char());
        }
        let fa = Fe::from_bin(a);
        assert_eq!(fa.add(fa).to_char(), 'Q'); // Q is zero
    }
    // a * 1 == a, a * 0 == 0, a * b == b * a
    let one = Fe::one();
    let zero = Fe::zero();
    for a in 0..32u8 {
        let fa = Fe::from_bin(a);
        assert_eq!(fa.mul(one).to_char(), fa.to_char());
        assert_eq!(fa.mul(zero).to_char(), 'Q');
        for b in 0..32u8 {
            let fb = Fe::from_bin(b);
            assert_eq!(fa.mul(fb).to_char(), fb.mul(fa).to_char());
        }
    }
}

#[test]
fn field_mul_associative_exhaustive() {
    for a in 0..32u8 {
        for b in 0..32u8 {
            for c in 0..32u8 {
                let fa = Fe::from_bin(a);
                let fb = Fe::from_bin(b);
                let fc = Fe::from_bin(c);
                assert_eq!(
                    fa.mul(fb).mul(fc).to_char(),
                    fa.mul(fb.mul(fc)).to_char()
                );
            }
        }
    }
}

#[test]
fn mul_concrete_values() {
    // 2 * 2 == 4 (x * x == x^2), and a reduction case:
    // 16 * 2 == x^4 * x == x^5 == x^3 + 1 == 9
    assert_eq!(Fe::from_bin(2).mul(Fe::from_bin(2)).to_char(), Fe::from_bin(4).to_char());
    assert_eq!(Fe::from_bin(16).mul(Fe::from_bin(2)).to_char(), Fe::from_bin(9).to_char());
}

#[test]
fn residue_length_is_generator_length() {
    // reduce_mod(G) always returns exactly len(G) coefficients,
    // trailing zeros included.
    let p = Poly::from_fe(Fe::from_bin(1));
    assert_eq!(p.codex32_polymod().len(), 13);
    assert_eq!(p.bech32_polymod().len(), 6);
    let empty = Poly::new();
    assert_eq!(empty.codex32_polymod().len(), 13);
    assert_eq!(empty.bech32_polymod().len(), 6);
    assert_eq!(Checksum::Codex32.len(), 13);
    assert_eq!(Checksum::Bech32.len(), 6);
}

#[test]
fn poly_get_past_end_is_zero() {
    let p = Poly::from_fe(Fe::from_bin(7));
    assert_eq!(p.get(0).to_char(), Fe::from_bin(7).to_char());
    assert_eq!(p.get(1).to_char(), 'Q');
    assert_eq!(p.get(100).to_char(), 'Q');
}
