//! Share serialization
//!
//! A worksheet's cell values as one compact character string, one character
//! per cell, row by row: the cell's symbol, or `_` for a blank cell. The
//! host stores these strings and hands them back; the decoder fails closed.

use vstd::prelude::*;

use crate::checksum_worksheet::{
    lemma_same_shape_trans, lemma_vals_update, lemma_wf_after_write, sheet_data_len, sheet_l,
    sheet_n_pairs, sheet_n_rows, sheet_same_shape, sheet_wf, spec_row_len, SheetModel, Worksheet,
};
use crate::error::Error;
use crate::fe::{fe_char, fe_of_char, spec_upper, Fe};
use crate::text::push_char;
use vstd::string::StringSliceAdditionalSpecFns;

verus! {

/// The header: the first six cells of row 0, `_` for blanks (and for the
/// whole header when the sheet has no rows).
pub open spec fn spec_header(m: SheetModel) -> Seq<char> {
    Seq::new(
        6,
        |i: int|
            if m.rows.len() > 0 && i < m.rows[0].len() && m.rows[0][i].val is Some {
                fe_char(m.rows[0][i].val->0)
            } else {
                '_'
            },
    )
}

/// One row of the share serialization: the symbol of each cell, `-` for a
/// blank cell.
pub open spec fn spec_row_chars(m: SheetModel, r: int) -> Seq<char> {
    Seq::new(
        m.rows[r].len(),
        |c: int|
            if m.rows[r][c].val is Some {
                fe_char(m.rows[r][c].val->0)
            } else {
                '-'
            },
    )
}

/// The serialization of the first `upto` rows, in row order.
pub open spec fn spec_sheet_chars_prefix(m: SheetModel, upto: int) -> Seq<char>
    decreases upto,
{
    if upto <= 0 {
        Seq::empty()
    } else {
        spec_sheet_chars_prefix(m, upto - 1) + spec_row_chars(m, upto - 1)
    }
}

/// A share serialization with every symbol upper-cased: what decoding a
/// string stores back.
pub open spec fn spec_normalised(s: Seq<char>) -> Seq<char> {
    Seq::new(
        s.len(),
        |i: int|
            if s[i] == '-' {
                '-'
            } else {
                fe_char(fe_of_char(spec_upper(s[i]))->0)
            },
    )
}

/// The serialization of a whole sheet: every cell of every row, one
/// character each.
pub open spec fn spec_sheet_chars(m: SheetModel) -> Seq<char> {
    spec_sheet_chars_prefix(m, m.rows.len() as int)
}

impl Worksheet {
    /// Returns the first six characters of the share, with `_`s for missing
    /// characters (the header).
    pub fn header_str(&self) -> (r: String)
        requires
            sheet_wf(self@),
        ensures
            r@ =~= spec_header(self@),
    {
        let mut ret = String::new();
        if self.n_rows() == 0 {
            let mut i: usize = 0;
            while i < 6
                invariant
                    i <= 6,
                    self@.rows.len() == 0,
                    ret@.len() == i,
                    forall|j: int| 0 <= j < i ==> ret@[j] == '_',
                decreases 6 - i,
            {
                push_char(&mut ret, '_');
                i = i + 1;
            }
            ret
        } else {
            proof {
                assert(self@.rows[0].len() == spec_row_len(self@, 0));
                assert(self@.rows[0].len() >= 6);
            }
            let mut i: usize = 0;
            while i < 6
                invariant
                    i <= 6,
                    sheet_wf(self@),
                    self@.rows.len() > 0,
                    self@.rows[0].len() >= 6,
                    ret@.len() == i,
                    forall|j: int| 0 <= j < i ==> ret@[j] == spec_header(self@)[j],
                decreases 6 - i,
            {
                let v = self.cell_val(0, i);
                match v {
                    Some(fe) => {
                        proof {
                            assert(self@.rows[0][i as int].val == Some(fe@));
                            assert(fe@ < 32);
                        }
                        let c = fe.to_char();
                        push_char(&mut ret, c);
                    },
                    None => {
                        push_char(&mut ret, '_');
                    },
                }
                i = i + 1;
            }
            ret
        }
    }

    /// Append the share serialization: one character per cell, row by row,
    /// the cell's symbol or `-` when blank.
    pub fn cells_into_str(&self, ret: &mut String)
        requires
            sheet_wf(self@),
        ensures
            final(ret)@ =~= old(ret)@ + spec_sheet_chars(self@),
    {
        let mut r: usize = 0;
        while r < self.n_rows()
            invariant
                r <= self@.rows.len(),
                sheet_wf(self@),
                ret@ =~= old(ret)@ + spec_sheet_chars_prefix(self@, r as int),
            decreases self@.rows.len() - r,
        {
            let n = self.row_len(r);
            let mut c: usize = 0;
            while c < n
                invariant
                    c <= n,
                    r < self@.rows.len(),
                    n == self@.rows[r as int].len(),
                    sheet_wf(self@),
                    ret@ =~= old(ret)@ + spec_sheet_chars_prefix(self@, r as int)
                        + spec_row_chars(self@, r as int).take(c as int),
                decreases n - c,
            {
                let v = self.cell_val(r, c);
                match v {
                    Some(fe) => {
                        proof {
                            assert(self@.rows[r as int][c as int].val == Some(fe@));
                            assert(fe@ < 32);
                        }
                        let ch = fe.to_char();
                        push_char(&mut *ret, ch);
                    },
                    None => {
                        push_char(&mut *ret, '-');
                    },
                }
                c = c + 1;
                proof {
                    assert(ret@ =~= old(ret)@ + spec_sheet_chars_prefix(self@, r as int)
                        + spec_row_chars(self@, r as int).take(c as int));
                }
            }
            r = r + 1;
            proof {
                assert(spec_row_chars(self@, r as int - 1).take(n as int) =~= spec_row_chars(
                    self@,
                    r as int - 1,
                ));
                assert(ret@ =~= old(ret)@ + spec_sheet_chars_prefix(self@, r as int));
            }
        }
        proof {
            assert(ret@ =~= old(ret)@ + spec_sheet_chars(self@));
        }
    }

    /// Restore cell values from a share serialization, failing closed: the
    /// character count must match the sheet, and every character must be a
    /// symbol (either case) or `-`, else nothing changes. Stored values are
    /// the upper-cased symbols.
    pub fn cells_from_str(&mut self, s: &str) -> (res: Result<(), Error>)
        requires
            sheet_wf(old(self)@),
            s.is_ascii(),
            s@.len() <= usize::MAX,
        ensures
            sheet_wf(final(self)@),
            sheet_same_shape(old(self)@, final(self)@),
            match res {
                Result::Ok(()) => {
                    &&& s@.len() == spec_sheet_chars(old(self)@).len()
                    &&& forall|i: int|
                        0 <= i < s@.len() ==> (#[trigger] s@[i]) == '-' || fe_of_char(
                            spec_upper(s@[i]),
                        ) is Some
                    &&& spec_sheet_chars(final(self)@) =~= Seq::new(
                        s@.len(),
                        |i: int|
                            if s@[i] == '-' {
                                '-'
                            } else {
                                fe_char(fe_of_char(spec_upper(s@[i]))->0)
                            },
                    )
                },
                Result::Err(Error::BadShareDataLen { len }) => {
                    &&& s@.len() != spec_sheet_chars(old(self)@).len()
                    &&& len == s@.len()
                    &&& final(self)@ == old(self)@
                },
                Result::Err(Error::BadBech32Char { ch }) => {
                    &&& exists|i: int|
                        0 <= i < s@.len() && (#[trigger] s@[i]) != '-' && fe_of_char(
                            spec_upper(s@[i]),
                        ) is None
                    &&& final(self)@ == old(self)@
                },
                _ => false,
            },
    {
        proof {
            lemma_sheet_chars_len(old(self)@, old(self)@.rows.len() as int);
            vstd::string::is_ascii_spec_bytes(s);
        }
        // First pass: the length and every character must be acceptable.
        let n_cells = self.count_cells();
        proof {
            assert(vstd::string::is_ascii(s));
            assert(s.spec_bytes() =~= Seq::new(s@.len(), |i: int| s@[i] as u8));
            assert(s.spec_bytes().len() == s@.len());
        }
        if s.len() != n_cells {
            return Err(Error::BadShareDataLen { len: s.len() });
        }
        let bytes = s.as_bytes();
        let mut i: usize = 0;
        while i < bytes.len()
            invariant
                i <= bytes.len(),
                self@ == old(self)@,
                sheet_wf(self@),
                s.is_ascii(),
                bytes@.len() == s@.len(),
                forall|j: int| 0 <= j < bytes@.len() ==> bytes@[j] == s@[j] as u8,
                forall|j: int|
                    0 <= j < i ==> (#[trigger] s@[j]) == '-' || fe_of_char(spec_upper(s@[j]))
                        is Some,
            decreases bytes.len() - i,
        {
            let b = bytes[i];
            let ch = b as char;
            proof {
                assert(s@[i as int] as u8 == b);
                assert('\0' <= s@[i as int] <= '\u{7f}');
                assert(ch == s@[i as int]);
            }
            if ch != '-' && Fe::from_char(ch).is_none() {
                return Err(Error::BadBech32Char { ch });
            }
            i = i + 1;
        }
        // Second pass: store the values.
        let ghost m0 = self@;
        let mut pos: usize = 0;
        let mut r: usize = 0;
        while r < self.n_rows()
            invariant
                r <= self@.rows.len(),
                sheet_wf(self@),
                sheet_same_shape(m0, self@),
                s.is_ascii(),
                bytes@.len() == s@.len(),
                forall|j: int| 0 <= j < bytes@.len() ==> bytes@[j] == s@[j] as u8,
                forall|j: int|
                    0 <= j < s@.len() ==> (#[trigger] s@[j]) == '-' || fe_of_char(
                        spec_upper(s@[j]),
                    ) is Some,
                s@.len() == spec_sheet_chars(m0).len(),
                pos as int == spec_sheet_chars_prefix(self@, r as int).len(),
                pos <= s@.len(),
                spec_sheet_chars_prefix(self@, r as int) =~= spec_normalised(s@).take(pos as int),
            decreases self@.rows.len() - r,
        {
            proof {
                lemma_sheet_chars_prefix_mono(self@, m0, r as int);
            }
            let n = self.row_len(r);
            let mut c: usize = 0;
            while c < n
                invariant
                    c <= n,
                    r < self@.rows.len(),
                    n == self@.rows[r as int].len(),
                    sheet_wf(self@),
                    sheet_same_shape(m0, self@),
                    s.is_ascii(),
                    bytes@.len() == s@.len(),
                    forall|j: int| 0 <= j < bytes@.len() ==> bytes@[j] == s@[j] as u8,
                    forall|j: int|
                        0 <= j < s@.len() ==> (#[trigger] s@[j]) == '-' || fe_of_char(
                            spec_upper(s@[j]),
                        ) is Some,
                    s@.len() == spec_sheet_chars(m0).len(),
                    pos as int == spec_sheet_chars_prefix(self@, r as int).len() + c,
                    pos <= s@.len(),
                    spec_sheet_chars_prefix(self@, r as int) + spec_row_chars(self@, r as int).take(
                        c as int,
                    ) =~= spec_normalised(s@).take(pos as int),
                decreases n - c,
            {
                proof {
                    lemma_sheet_chars_bound(self@, m0, r as int, c as int, pos as int);
                }
                let b = bytes[pos];
                let ch = b as char;
                proof {
                    assert(s@[pos as int] as u8 == b);
                    assert('\0' <= s@[pos as int] <= '\u{7f}');
                    assert(ch == s@[pos as int]);
                }
                let ghost mid = self@;
                if ch == '-' {
                    self.set_cell_val(r, c, None);
                    proof {
                        lemma_vals_update(mid, self@, r as int, c as int, None);
                        lemma_wf_after_write(mid, self@, r as int, c as int, None);
                        lemma_same_shape_trans(m0, mid, self@);
                    }
                } else {
                    let fe = Fe::from_char(ch).unwrap();
                    self.set_cell_val(r, c, Some(fe));
                    proof {
                        lemma_vals_update(mid, self@, r as int, c as int, Some(fe@));
                        lemma_wf_after_write(mid, self@, r as int, c as int, Some(fe@));
                        lemma_same_shape_trans(m0, mid, self@);
                    }
                }
                pos = pos + 1;
                c = c + 1;
                proof {
                    lemma_row_write_keeps_prefix(mid, self@, r as int, c as int - 1);
                    if s@[pos - 1] != '-' {
                        crate::fe::lemma_char_fe_roundtrip(spec_upper(s@[pos - 1]));
                    }
                    assert(spec_row_chars(self@, r as int)[c - 1] == spec_normalised(s@)[pos - 1]);
                    assert(spec_sheet_chars_prefix(self@, r as int) + spec_row_chars(
                        self@,
                        r as int,
                    ).take(c as int) =~= spec_normalised(s@).take(pos as int));
                }
            }
            r = r + 1;
            proof {
                assert(spec_row_chars(self@, r as int - 1).take(n as int) =~= spec_row_chars(
                    self@,
                    r as int - 1,
                ));
                assert(spec_sheet_chars_prefix(self@, r as int) =~= spec_sheet_chars_prefix(
                    self@,
                    r as int - 1,
                ) + spec_row_chars(self@, r as int - 1));
            }
        }
        proof {
            lemma_sheet_chars_prefix_mono(self@, m0, self@.rows.len() as int);
            lemma_sheet_chars_len(m0, m0.rows.len() as int);
            assert(spec_sheet_chars(self@) =~= spec_normalised(s@).take(pos as int));
            assert(pos as int == s@.len());
            assert(spec_normalised(s@).take(pos as int) =~= spec_normalised(s@));
        }
        Ok(())
    }

    /// The total number of cells of the sheet.
    fn count_cells(&self) -> (n: usize)
        requires
            sheet_wf(self@),
        ensures
            n == spec_sheet_chars(self@).len(),
    {
        proof {
            lemma_sheet_chars_len(self@, self@.rows.len() as int);
        }
        let mut total: usize = 0;
        let mut r: usize = 0;
        while r < self.n_rows()
            invariant
                r <= self@.rows.len(),
                sheet_wf(self@),
                total as int == spec_sheet_chars_prefix(self@, r as int).len(),
                total as int <= 16 * (r as int),
            decreases self@.rows.len() - r,
        {
            proof {
                assert(self@.rows[r as int].len() == spec_row_len(self@, r as int));
                assert(self@.rows[r as int].len() <= sheet_l(self@) + 2);
                assert(sheet_l(self@) + 2 <= 15);
                assert(self@.rows.len() == sheet_n_rows(self@));
                assert(sheet_data_len(self@) % 2 == 0);
                assert(2 * sheet_n_pairs(self@) == sheet_data_len(self@) + 2);
                assert(sheet_n_rows(self@) <= self@.size);
                assert(16 * (r as int) + 16 <= 16 * (self@.size as int));
            }
            total = total + self.row_len(r);
            r = r + 1;
        }
        total
    }
}

/// The serialization of a prefix of the rows has as many characters as the
/// rows have cells; it is bounded by rows times the widest row.
proof fn lemma_sheet_chars_len(m: SheetModel, upto: int)
    requires
        sheet_wf(m),
        0 <= upto <= m.rows.len(),
    ensures
        spec_sheet_chars_prefix(m, upto).len() <= upto * (sheet_l(m) + 2),
        upto == m.rows.len() ==> spec_sheet_chars_prefix(m, upto).len() == spec_sheet_chars(
            m,
        ).len(),
    decreases upto,
{
    if upto > 0 {
        lemma_sheet_chars_len(m, upto - 1);
        assert(m.rows[upto - 1].len() == spec_row_len(m, upto - 1));
    }
}

/// The row count times the widest row stays within machine range.
proof fn lemma_rows_bound(m: SheetModel)
    requires
        sheet_wf(m),
    ensures
        m.rows.len() * (sheet_l(m) + 2) <= m.size * 16,
{
    assert(m.rows.len() == sheet_n_rows(m));
    assert(sheet_n_rows(m) <= m.size);
    assert(sheet_l(m) + 2 <= 16);
    vstd::arithmetic::mul::lemma_mul_upper_bound(
        m.rows.len() as int,
        m.size as int,
        sheet_l(m) + 2,
        16,
    );
}

/// Serialization prefixes only read rows below the cut, so they agree on
/// sheets of the same shape that agree there.
proof fn lemma_sheet_chars_prefix_mono(a: SheetModel, b: SheetModel, upto: int)
    requires
        sheet_same_shape(a, b),
        0 <= upto <= a.rows.len(),
    ensures
        spec_sheet_chars_prefix(a, upto).len() == spec_sheet_chars_prefix(b, upto).len(),
    decreases upto,
{
    if upto > 0 {
        lemma_sheet_chars_prefix_mono(a, b, upto - 1);
    }
}

/// Writing one cell of row `r` leaves the serialization of the earlier rows
/// and the earlier cells of row `r` alone.
proof fn lemma_row_write_keeps_prefix(mid: SheetModel, cur: SheetModel, r: int, c: int)
    requires
        0 <= r < mid.rows.len(),
        0 <= c < mid.rows[r].len(),
        cur.rows.len() == mid.rows.len(),
        forall|rr: int| 0 <= rr < mid.rows.len() && rr != r ==> cur.rows[rr] == mid.rows[rr],
        cur.rows[r].len() == mid.rows[r].len(),
        forall|cc: int| 0 <= cc < mid.rows[r].len() && cc != c ==> cur.rows[r][cc] == mid.rows[r][cc],
    ensures
        spec_sheet_chars_prefix(cur, r) =~= spec_sheet_chars_prefix(mid, r),
        spec_row_chars(cur, r).take(c) =~= spec_row_chars(mid, r).take(c),
    decreases r,
{
    lemma_prefix_same_rows(mid, cur, r);
}

/// Serialization prefixes agree when the rows below the cut agree.
proof fn lemma_prefix_same_rows(a: SheetModel, b: SheetModel, upto: int)
    requires
        0 <= upto <= a.rows.len(),
        b.rows.len() == a.rows.len(),
        forall|rr: int| 0 <= rr < upto ==> b.rows[rr] == a.rows[rr],
    ensures
        spec_sheet_chars_prefix(b, upto) =~= spec_sheet_chars_prefix(a, upto),
    decreases upto,
{
    if upto > 0 {
        lemma_prefix_same_rows(a, b, upto - 1);
        assert(spec_row_chars(b, upto - 1) =~= spec_row_chars(a, upto - 1));
    }
}

/// While filling row `r` at cell `c`, the running position stays inside the
/// serialization.
proof fn lemma_sheet_chars_bound(cur: SheetModel, m0: SheetModel, r: int, c: int, pos: int)
    requires
        sheet_wf(cur),
        sheet_same_shape(m0, cur),
        0 <= r < cur.rows.len(),
        0 <= c < cur.rows[r].len(),
        pos == spec_sheet_chars_prefix(cur, r).len() + c,
    ensures
        pos < spec_sheet_chars(m0).len(),
    decreases cur.rows.len() - r,
{
    lemma_chars_prefix_step(m0, cur, r);
}

/// The serialization grows by whole rows: a position inside row `r` lies
/// strictly inside the whole serialization.
proof fn lemma_chars_prefix_step(m0: SheetModel, cur: SheetModel, r: int)
    requires
        sheet_same_shape(m0, cur),
        0 <= r < cur.rows.len(),
    ensures
        spec_sheet_chars_prefix(cur, r).len() + cur.rows[r].len() <= spec_sheet_chars(m0).len(),
    decreases cur.rows.len() - r,
{
    lemma_sheet_chars_prefix_mono(cur, m0, cur.rows.len() as int);
    lemma_prefix_le(cur, r + 1, cur.rows.len() as int);
    assert(spec_sheet_chars_prefix(cur, r + 1).len() == spec_sheet_chars_prefix(cur, r).len()
        + cur.rows[r].len());
}

/// Longer prefixes of the serialization are at least as long.
proof fn lemma_prefix_le(m: SheetModel, a: int, b: int)
    requires
        0 <= a <= b <= m.rows.len(),
    ensures
        spec_sheet_chars_prefix(m, a).len() <= spec_sheet_chars_prefix(m, b).len(),
    decreases b,
{
    if a < b {
        lemma_prefix_le(m, a, b - 1);
    }
}


} // verus!
