//! Small helpers for building and reading strings
//!
//! Cell identifiers (`inp_<share>_<row>_<col>`), worksheet headers and
//! session serializations are built character by character and parsed by
//! scanning decimal segments. The one primitive vstd gives no specification
//! for is `String::push`, wrapped here.

use vstd::prelude::*;

verus! {

/// Relies on `String::push`: appends exactly the given character.
#[verifier::external_body]
pub(crate) fn push_char(s: &mut String, c: char)
    ensures
        final(s)@ == old(s)@.push(c),
{
    s.push(c)
}

/// The ASCII digit for a value below ten.
pub open spec fn digit_char(d: int) -> char
    recommends
        0 <= d < 10,
{
    ((48 + d) as u8) as char
}

/// Whether a character is an ASCII digit.
pub open spec fn is_digit(c: char) -> bool {
    '0' <= c && c <= '9'
}

/// The value of an ASCII digit.
pub open spec fn digit_val(c: char) -> int
    recommends
        is_digit(c),
{
    c as int - 48
}

/// The decimal representation of a number, most significant digit first,
/// without leading zeros (a lone zero for 0).
pub open spec fn dec_rep(n: nat) -> Seq<char>
    decreases n,
{
    if n < 10 {
        seq![digit_char(n as int)]
    } else {
        dec_rep(n / 10).push(digit_char((n % 10) as int))
    }
}

/// The id of the input box of cell `(row, col)` of share `share`:
/// `inp_<share>_<row>_<col>`, all indices base-10 unsigned.
pub open spec fn spec_cell_id(share: nat, row: nat, col: nat) -> Seq<char> {
    seq!['i', 'n', 'p', '_'] + dec_rep(share) + seq!['_'] + dec_rep(row) + seq!['_'] + dec_rep(col)
}

/// The first position at or after `from` that does not hold a digit.
pub open spec fn digits_end(s: Seq<char>, from: int) -> int
    recommends
        0 <= from <= s.len(),
    decreases s.len() - from,
{
    if from >= s.len() || !is_digit(s[from]) {
        from
    } else {
        digits_end(s, from + 1)
    }
}

/// The value of the decimal digits `s[from..end]`, most significant first.
pub open spec fn seg_val(s: Seq<char>, from: int, end: int) -> nat
    recommends
        0 <= from <= end <= s.len(),
    decreases end - from,
{
    if from >= end {
        0
    } else {
        seg_val(s, from, end - 1) * 10 + (if is_digit(s[end - 1]) {
            digit_val(s[end - 1]) as nat
        } else {
            0
        })
    }
}

/// The result of parsing a cell id against the `inp_<share>_<row>_<col>`
/// grammar: three non-empty all-digit segments after the fixed prefix,
/// separated by single underscores, each value fitting a machine word.
pub open spec fn parse_cell_name(s: Seq<char>) -> Option<(nat, nat, nat)> {
    if s.len() < 4 || s[0] != 'i' || s[1] != 'n' || s[2] != 'p' || s[3] != '_' {
        None
    } else {
        let e1 = digits_end(s, 4);
        if e1 == 4 || e1 >= s.len() || s[e1] != '_' {
            None
        } else {
            let e2 = digits_end(s, e1 + 1);
            if e2 == e1 + 1 || e2 >= s.len() || s[e2] != '_' {
                None
            } else {
                let e3 = digits_end(s, e2 + 1);
                if e3 == e2 + 1 || e3 != s.len() {
                    None
                } else {
                    let a = seg_val(s, 4, e1);
                    let b = seg_val(s, e1 + 1, e2);
                    let c = seg_val(s, e2 + 1, e3);
                    if a <= usize::MAX && b <= usize::MAX && c <= usize::MAX {
                        Some((a, b, c))
                    } else {
                        None
                    }
                }
            }
        }
    }
}

/// Append the decimal representation of `n`.
pub(crate) fn push_usize(s: &mut String, n: usize)
    ensures
        final(s)@ == old(s)@ + dec_rep(n as nat),
    decreases n,
{
    if n >= 10 {
        push_usize(s, n / 10);
        let d = (n % 10) as u8;
        push_char(s, (48 + d) as char);
        proof {
            assert(old(s)@ + dec_rep((n / 10) as nat) + seq![digit_char((n % 10) as int)] =~= old(
                s,
            )@ + dec_rep(n as nat));
        }
    } else {
        let d = n as u8;
        push_char(s, (48 + d) as char);
        proof {
            assert(old(s)@ + seq![digit_char(n as int)] =~= old(s)@ + dec_rep(n as nat));
            assert(old(s)@.push(digit_char(n as int)) =~= old(s)@ + seq![digit_char(n as int)]);
        }
    }
}

/// Build the id string of the input box of cell `(row, col)` of a share.
pub(crate) fn cell_id_string(share: usize, row: usize, col: usize) -> (r: String)
    ensures
        r@ =~= spec_cell_id(share as nat, row as nat, col as nat),
{
    let mut s = String::new();
    push_char(&mut s, 'i');
    push_char(&mut s, 'n');
    push_char(&mut s, 'p');
    push_char(&mut s, '_');
    push_usize(&mut s, share);
    push_char(&mut s, '_');
    push_usize(&mut s, row);
    push_char(&mut s, '_');
    push_usize(&mut s, col);
    s
}

} // verus!
