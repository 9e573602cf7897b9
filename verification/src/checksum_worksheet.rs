//! Checksum worksheet
//!
//! The staircase of rows and cells whose shape is derived from the HRP, the
//! total share size and the checksum kind. Row 0 holds the first characters
//! of the share; row 1 the fixed HRP residue; then pairs of a sum row (with
//! two further share characters at its end) and a residue row follow; the
//! last row is the global residue. Cells in the rightmost generator-length
//! columns form the checksum tail and are back-computed.

use vstd::prelude::*;

use crate::error::Error;
use crate::fe::{fe_char, fe_of_char, fe_valid, spec_add, spec_upper, upper_char, Checksum, Fe};
use crate::poly::{generator, seq_valid, spec_hrp_residue, spec_polymod, zeros, Poly};
use crate::text::{cell_id_string, push_char, spec_cell_id};
use vstd::string::StringSliceAdditionalSpecFns;
use vstd::utf8::is_ascii_chars;

verus! {

/// How to render a given cell.
#[derive(Copy, Clone, PartialEq, Eq, Debug, Structural)]
pub enum CellType {
    /// Share data, which is editable in all modes and bolded.
    ShareData,
    /// Residue line, implied by cells above it in all modes.
    Residue,
    /// Sum, implied by cells above it in all modes.
    Sum,
    /// Global residue, fixed in "create" mode but computed in "verify" mode.
    GlobalResidue,
}

/// Whether the worksheet is in "create share" or "verify share" mode.
#[derive(Copy, Clone, PartialEq, Eq, Debug, Structural)]
pub enum CreateMode {
    Create,
    Verify,
}

/// The mathematical image of a single cell.
#[verifier::ext_equal]
pub struct CellModel {
    pub ty: CellType,
    pub is_checksum: bool,
    pub id: Seq<char>,
    pub val: Option<u8>,
}

/// A single cell of the checksum worksheet.
#[derive(Clone, Debug)]
pub struct Cell {
    ty: CellType,
    /// Whether this cell is far enough to the right of the sheet to be a
    /// "checksum" cell, i.e. one that is backcomputed.
    is_checksum: bool,
    /// The ID of the corresponding input box on the page.
    dom_id: String,
    /// The value in this cell, unless it is blank.
    val: Option<Fe>,
}

impl View for Cell {
    type V = CellModel;

    closed spec fn view(&self) -> CellModel {
        CellModel {
            ty: self.ty,
            is_checksum: self.is_checksum,
            id: self.dom_id@,
            val: match self.val {
                Some(fe) => Some(fe@),
                None => None,
            },
        }
    }
}

/// A row in the worksheet.
#[derive(Clone, Debug)]
pub struct Row {
    /// The actual cell data.
    cells: Vec<Cell>,
}

impl View for Row {
    type V = Seq<CellModel>;

    closed spec fn view(&self) -> Seq<CellModel> {
        Seq::new(self.cells@.len(), |i: int| self.cells@[i]@)
    }
}

/// The mathematical image of a worksheet.
pub struct SheetModel {
    pub hrp: Seq<char>,
    pub mode: CreateMode,
    pub size: nat,
    pub checksum: Checksum,
    pub idx: nat,
    pub rows: Seq<Seq<CellModel>>,
}

/// The entire checksum worksheet.
#[derive(Clone, Debug)]
pub struct Worksheet {
    hrp: String,
    create_mode: CreateMode,
    size: usize,
    rows: Vec<Row>,
    checksum: Checksum,
    idx: usize,
}

impl View for Worksheet {
    type V = SheetModel;

    closed spec fn view(&self) -> SheetModel {
        SheetModel {
            hrp: self.hrp@,
            mode: self.create_mode,
            size: self.size as nat,
            checksum: self.checksum,
            idx: self.idx as nat,
            rows: Seq::new(self.rows@.len(), |i: int| self.rows@[i]@),
        }
    }
}

/// The generator length of the sheet's checksum.
pub open spec fn sheet_l(m: SheetModel) -> int {
    m.checksum.spec_len() as int
}

/// The number of data characters below the first row: `size - h - L - 1`.
pub open spec fn sheet_data_len(m: SheetModel) -> int {
    m.size - m.hrp.len() - sheet_l(m) - 1
}

/// The number of sum/residue row pairs, counting rows 0 and 1 as the first.
pub open spec fn sheet_n_pairs(m: SheetModel) -> int {
    sheet_data_len(m) / 2 + 1
}

/// The total number of rows of the staircase.
pub open spec fn sheet_n_rows(m: SheetModel) -> int {
    2 * sheet_n_pairs(m) + 1
}

/// The number of cells of row `r`: sum rows carry two share-data cells
/// beyond the generator length, all other rows are generator-length.
pub open spec fn spec_row_len(m: SheetModel, r: int) -> int {
    if r == sheet_n_rows(m) - 1 {
        sheet_l(m)
    } else if r >= 2 && r % 2 == 0 {
        sheet_l(m) + 2
    } else {
        sheet_l(m)
    }
}

/// The staircase offset a row's `is_checksum` flags were computed with: 0
/// for the first two rows and the final row, and growing by 2 per pair for
/// the sum and residue rows between them.
pub open spec fn spec_row_offset(m: SheetModel, r: int) -> int {
    if r == sheet_n_rows(m) - 1 {
        0
    } else if r <= 1 {
        0
    } else if r % 2 == 0 {
        r - 2
    } else {
        r - 1
    }
}

/// The role of cell `(r, c)`, determined by the row position alone.
pub open spec fn spec_cell_ty(m: SheetModel, r: int, c: int) -> CellType {
    if r == 0 {
        CellType::ShareData
    } else if r == sheet_n_rows(m) - 1 {
        CellType::GlobalResidue
    } else if r % 2 == 1 {
        CellType::Residue
    } else if c < sheet_l(m) {
        CellType::Sum
    } else {
        CellType::ShareData
    }
}

/// Whether cell `(r, c)` lies in the checksum tail: its conceptual column
/// `h + offset + 1 + c` reaches the last `L` columns of the sheet.
pub open spec fn spec_is_checksum(m: SheetModel, r: int, c: int) -> bool {
    m.hrp.len() + spec_row_offset(m, r) + 1 + c >= m.size - sheet_l(m)
}

/// Well-formedness of a built worksheet: the sizes are consistent, and every
/// cell's role, checksum flag and id agree with its position. Cell values
/// always lie in the field.
pub open spec fn sheet_wf(m: SheetModel) -> bool {
    &&& is_ascii_chars(m.hrp)
    &&& m.size <= usize::MAX / 64
    &&& m.hrp.len() + sheet_l(m) + 1 <= m.size
    &&& sheet_data_len(m) % 2 == 0
    &&& m.idx <= usize::MAX
    &&& m.rows.len() == sheet_n_rows(m)
    &&& forall|r: int| 0 <= r < m.rows.len() ==> (#[trigger] m.rows[r]).len() == spec_row_len(m, r)
    &&& forall|r: int, c: int|
        0 <= r < m.rows.len() && 0 <= c < m.rows[r].len() ==> {
            let cell = #[trigger] m.rows[r][c];
            &&& cell.ty == spec_cell_ty(m, r, c)
            &&& cell.is_checksum == spec_is_checksum(m, r, c)
            &&& cell.id == spec_cell_id(m.idx, r as nat, c as nat)
            &&& (cell.val is Some ==> cell.val->0 < 32)
        }
}

/// The fixed global-residue string of a checksum kind in create mode
/// (`SECRETSHARE32`, respectively `QQQQQP`), as field elements.
pub open spec fn global_residue_literal(c: Checksum) -> Seq<u8> {
    match c {
        Checksum::Codex32 => seq![
            16u8, 25u8, 24u8, 3u8, 25u8, 11u8, 16u8, 23u8, 29u8, 3u8, 25u8, 17u8, 10u8,
        ],
        Checksum::Bech32 => seq![0u8, 0u8, 0u8, 0u8, 0u8, 1u8],
    }
}

/// The value every cell of a freshly built worksheet holds: the HRP residue
/// in row 1, the fixed literal in the final row in create mode, and nothing
/// anywhere else.
pub open spec fn spec_initial_val(m: SheetModel, r: int, c: int) -> Option<u8> {
    if r == 1 {
        Some(spec_hrp_residue(m.hrp, m.checksum)[c])
    } else if r == sheet_n_rows(m) - 1 && m.mode == CreateMode::Create {
        Some(global_residue_literal(m.checksum)[c])
    } else {
        None
    }
}

/// The upper-cased form of a character sequence.
pub open spec fn upper_seq(s: Seq<char>) -> Seq<char> {
    Seq::new(s.len(), |i: int| spec_upper(s[i]))
}

/// The model of a freshly made cell: flag and id computed from the sheet's
/// immutable fields and the cell's position.
pub open spec fn spec_new_cell(
    m: SheetModel,
    r: int,
    c: int,
    offset: int,
    ty: CellType,
    val: Option<u8>,
) -> CellModel {
    CellModel {
        ty,
        is_checksum: m.hrp.len() + offset + 1 + c >= m.size - sheet_l(m),
        id: spec_cell_id(m.idx, r as nat, c as nat),
        val,
    }
}

/// Row `r` of the sheet is exactly what the builder puts there.
pub open spec fn row_matches(m: SheetModel, r: int) -> bool {
    &&& m.rows[r].len() == spec_row_len(m, r)
    &&& forall|c: int|
        0 <= c < m.rows[r].len() ==> #[trigger] m.rows[r][c] == spec_new_cell(
            m,
            r,
            c,
            spec_row_offset(m, r),
            spec_cell_ty(m, r, c),
            spec_initial_val(m, r, c),
        )
}

/// The value of an optional field element.
pub open spec fn opt_fe(v: Option<Fe>) -> Option<u8> {
    match v {
        Some(fe) => Some(fe@),
        None => None,
    }
}

/// Upper-case an ASCII string.
fn upper_str(s: &str) -> (r: String)
    requires
        s.is_ascii(),
    ensures
        r@ =~= upper_seq(s@),
        is_ascii_chars(r@),
{
    let n = s.unicode_len();
    let mut out = String::new();
    let mut i: usize = 0;
    while i < n
        invariant
            i <= n,
            n == s@.len(),
            s.is_ascii(),
            out@.len() == i,
            forall|j: int| 0 <= j < i ==> out@[j] == upper_seq(s@)[j],
            is_ascii_chars(out@),
        decreases n - i,
    {
        let c = s.get_char(i);
        let u = upper_char(c);
        proof {
            assert('\0' <= s@[i as int] <= '\u{7f}');
            assert('\0' <= spec_upper(s@[i as int]) <= '\u{7f}');
        }
        push_char(&mut out, u);
        i = i + 1;
    }
    out
}

/// The fixed global-residue literal as executable field elements.
fn global_literal_vec(c: Checksum) -> (v: Vec<Fe>)
    ensures
        crate::poly::fe_seq(v@) =~= global_residue_literal(c),
        v@.len() == c.spec_len(),
{
    let mut v: Vec<Fe> = Vec::new();
    match c {
        Checksum::Codex32 => {
            v.push(Fe::from_bin(16));
            v.push(Fe::from_bin(25));
            v.push(Fe::from_bin(24));
            v.push(Fe::from_bin(3));
            v.push(Fe::from_bin(25));
            v.push(Fe::from_bin(11));
            v.push(Fe::from_bin(16));
            v.push(Fe::from_bin(23));
            v.push(Fe::from_bin(29));
            v.push(Fe::from_bin(3));
            v.push(Fe::from_bin(25));
            v.push(Fe::from_bin(17));
            v.push(Fe::from_bin(10));
        },
        Checksum::Bech32 => {
            v.push(Fe::from_bin(0));
            v.push(Fe::from_bin(0));
            v.push(Fe::from_bin(0));
            v.push(Fe::from_bin(0));
            v.push(Fe::from_bin(0));
            v.push(Fe::from_bin(1));
        },
    }
    v
}

impl Worksheet {
    /// The length of the HRP in characters.
    fn hrp_len(&self) -> (n: usize)
        requires
            is_ascii_chars(self@.hrp),
            self@.hrp.len() <= usize::MAX,
        ensures
            n == self@.hrp.len(),
    {
        let st = self.hrp.as_str();
        proof {
            vstd::string::is_ascii_spec_bytes(st);
            assert(vstd::string::is_ascii(st));
            assert(st.spec_bytes() =~= Seq::new(st@.len(), |i: int| st@[i] as u8));
            assert(st.spec_bytes().len() == self@.hrp.len());
        }
        st.len()
    }

    /// Helper to construct one cell at position `(ridx, cidx)`.
    fn make_cell(&self, offset: usize, ridx: usize, cidx: usize, ty: CellType, val: Option<Fe>) -> (cell:
        Cell)
        requires
            is_ascii_chars(self@.hrp),
            self@.hrp.len() <= usize::MAX,
            self.size <= usize::MAX / 64,
            self@.hrp.len() <= self.size,
            offset <= self.size,
            cidx <= self.size + 2,
            self.size as int >= sheet_l(self@),
        ensures
            cell@ == spec_new_cell(self@, ridx as int, cidx as int, offset as int, ty, opt_fe(val)),
    {
        let is_checksum = self.hrp_len() + offset + 1 + cidx >= self.size - self.checksum.len();
        let dom_id = cell_id_string(self.idx, ridx, cidx);
        Cell { ty, is_checksum, dom_id, val }
    }
}

/// The immutable fields of the sheet are consistent.
pub open spec fn sheet_fields_ok(m: SheetModel) -> bool {
    &&& is_ascii_chars(m.hrp)
    &&& m.size <= usize::MAX / 64
    &&& m.hrp.len() + sheet_l(m) + 1 <= m.size
    &&& sheet_data_len(m) % 2 == 0
    &&& m.idx <= usize::MAX
}

/// Two sheet models agree on everything but the rows.
pub open spec fn sheet_same_fields(a: SheetModel, b: SheetModel) -> bool {
    &&& a.hrp == b.hrp
    &&& a.mode == b.mode
    &&& a.size == b.size
    &&& a.checksum == b.checksum
    &&& a.idx == b.idx
}

/// A new cell's model depends on the immutable fields alone.
pub proof fn lemma_new_cell_same(
    m1: SheetModel,
    m2: SheetModel,
    r: int,
    c: int,
    offset: int,
    ty: CellType,
    val: Option<u8>,
)
    requires
        sheet_same_fields(m1, m2),
    ensures
        spec_new_cell(m1, r, c, offset, ty, val) == spec_new_cell(m2, r, c, offset, ty, val),
{
}

impl Worksheet {
    /// Helper to populate the first row (`L` blank share-data cells).
    fn add_first_row(&mut self)
        requires
            sheet_fields_ok(old(self)@),
            old(self)@.rows.len() == 0,
        ensures
            sheet_same_fields(old(self)@, final(self)@),
            final(self)@.rows =~~= old(self)@.rows.push(
                Seq::new(
                    sheet_l(old(self)@) as nat,
                    |c: int| spec_new_cell(old(self)@, 0, c, 0, CellType::ShareData, None),
                ),
            ),
    {
        let l = self.checksum.len();
        let mut cells: Vec<Cell> = Vec::new();
        let mut c: usize = 0;
        while c < l
            invariant
                c <= l,
                l == sheet_l(self@),
                sheet_fields_ok(self@),
                cells@.len() == c,
                forall|j: int|
                    0 <= j < c ==> cells@[j]@ == spec_new_cell(
                        self@,
                        0,
                        j,
                        0,
                        CellType::ShareData,
                        None,
                    ),
            decreases l - c,
        {
            let cell = self.make_cell(0, 0, c, CellType::ShareData, None);
            cells.push(cell);
            c = c + 1;
        }
        let ghost pre = self@;
        self.rows.push(Row { cells });
        proof {
            assert(self@.rows =~~= pre.rows.push(
                Seq::new(
                    sheet_l(pre) as nat,
                    |cc: int| spec_new_cell(pre, 0, cc, 0, CellType::ShareData, None),
                ),
            ));
        }
    }

    /// Helper to populate the second row: the HRP residue.
    fn add_second_row(&mut self)
        requires
            sheet_fields_ok(old(self)@),
            old(self)@.rows.len() == 1,
        ensures
            sheet_same_fields(old(self)@, final(self)@),
            final(self)@.rows =~~= old(self)@.rows.push(
                Seq::new(
                    sheet_l(old(self)@) as nat,
                    |c: int|
                        spec_new_cell(
                            old(self)@,
                            1,
                            c,
                            0,
                            CellType::Residue,
                            Some(spec_hrp_residue(old(self)@.hrp, old(self)@.checksum)[c]),
                        ),
                ),
            ),
    {
        let l = self.checksum.len();
        let hrp_poly = match self.checksum {
            Checksum::Bech32 => Poly::bech32_hrp_residue(self.hrp.as_str()),
            Checksum::Codex32 => Poly::codex32_hrp_residue(self.hrp.as_str()),
        };
        let coeffs = hrp_poly.iter();
        proof {
            assert(crate::poly::fe_seq(coeffs@) == spec_hrp_residue(self@.hrp, self@.checksum));
        }
        let mut cells: Vec<Cell> = Vec::new();
        let mut c: usize = 0;
        while c < l
            invariant
                c <= l,
                l == sheet_l(self@),
                sheet_fields_ok(self@),
                coeffs@.len() == l,
                crate::poly::fe_seq(coeffs@) == spec_hrp_residue(self@.hrp, self@.checksum),
                cells@.len() == c,
                forall|j: int|
                    0 <= j < c ==> cells@[j]@ == spec_new_cell(
                        self@,
                        1,
                        j,
                        0,
                        CellType::Residue,
                        Some(spec_hrp_residue(self@.hrp, self@.checksum)[j]),
                    ),
            decreases l - c,
        {
            let fe = coeffs[c];
            proof {
                assert(fe@ == crate::poly::fe_seq(coeffs@)[c as int]);
            }
            let cell = self.make_cell(0, 1, c, CellType::Residue, Some(fe));
            cells.push(cell);
            c = c + 1;
        }
        let ghost pre = self@;
        self.rows.push(Row { cells });
        proof {
            assert(self@.rows =~~= pre.rows.push(
                Seq::new(
                    sheet_l(pre) as nat,
                    |cc: int|
                        spec_new_cell(
                            pre,
                            1,
                            cc,
                            0,
                            CellType::Residue,
                            Some(spec_hrp_residue(pre.hrp, pre.checksum)[cc]),
                        ),
                ),
            ));
        }
    }

    /// Helper to populate one "ordinary" pair of rows: a sum row with its two
    /// share-data cells, then a residue row two columns further right.
    fn add_2nth_rows(&mut self, offset: usize)
        requires
            sheet_fields_ok(old(self)@),
            old(self)@.rows.len() >= 2,
            offset + 2 <= old(self)@.size,
        ensures
            sheet_same_fields(old(self)@, final(self)@),
            final(self)@.rows =~~= old(self)@.rows.push(
                Seq::new(
                    (sheet_l(old(self)@) + 2) as nat,
                    |c: int|
                        spec_new_cell(
                            old(self)@,
                            old(self)@.rows.len() as int,
                            c,
                            offset as int,
                            if c < sheet_l(old(self)@) {
                                CellType::Sum
                            } else {
                                CellType::ShareData
                            },
                            None,
                        ),
                ),
            ).push(
                Seq::new(
                    sheet_l(old(self)@) as nat,
                    |c: int|
                        spec_new_cell(
                            old(self)@,
                            old(self)@.rows.len() as int + 1,
                            c,
                            offset + 2,
                            CellType::Residue,
                            None,
                        ),
                ),
            ),
    {
        let l = self.checksum.len();
        let ridx = self.rows.len();
        let mut cells: Vec<Cell> = Vec::new();
        let mut c: usize = 0;
        while c < l
            invariant
                c <= l,
                l == sheet_l(self@),
                sheet_fields_ok(self@),
                offset + 2 <= self@.size,
                ridx == self@.rows.len(),
                cells@.len() == c,
                forall|j: int|
                    0 <= j < c ==> cells@[j]@ == spec_new_cell(
                        self@,
                        ridx as int,
                        j,
                        offset as int,
                        CellType::Sum,
                        None,
                    ),
            decreases l - c,
        {
            let cell = self.make_cell(offset, ridx, c, CellType::Sum, None);
            cells.push(cell);
            c = c + 1;
        }
        let cell_a = self.make_cell(offset, ridx, l, CellType::ShareData, None);
        cells.push(cell_a);
        let cell_b = self.make_cell(offset, ridx, l + 1, CellType::ShareData, None);
        cells.push(cell_b);
        let ghost pre = self@;
        self.rows.push(Row { cells });
        proof {
            assert(self@.rows =~~= pre.rows.push(
                Seq::new(
                    (sheet_l(pre) + 2) as nat,
                    |cc: int|
                        spec_new_cell(
                            pre,
                            pre.rows.len() as int,
                            cc,
                            offset as int,
                            if cc < sheet_l(pre) {
                                CellType::Sum
                            } else {
                                CellType::ShareData
                            },
                            None,
                        ),
                ),
            ));
        }
        let ridx2 = self.rows.len();
        let mut cells2: Vec<Cell> = Vec::new();
        let mut c2: usize = 0;
        while c2 < l
            invariant
                c2 <= l,
                l == sheet_l(self@),
                sheet_fields_ok(self@),
                offset + 2 <= self@.size,
                ridx2 == self@.rows.len(),
                cells2@.len() == c2,
                forall|j: int|
                    0 <= j < c2 ==> cells2@[j]@ == spec_new_cell(
                        self@,
                        ridx2 as int,
                        j,
                        offset + 2,
                        CellType::Residue,
                        None,
                    ),
            decreases l - c2,
        {
            let cell = self.make_cell(offset + 2, ridx2, c2, CellType::Residue, None);
            cells2.push(cell);
            c2 = c2 + 1;
        }
        let ghost mid = self@;
        self.rows.push(Row { cells: cells2 });
        proof {
            assert(self@.rows =~~= mid.rows.push(
                Seq::new(
                    sheet_l(mid) as nat,
                    |cc: int|
                        spec_new_cell(mid, mid.rows.len() as int, cc, offset + 2, CellType::Residue, None),
                ),
            ));
            assert(self@.rows =~~= pre.rows.push(
                Seq::new(
                    (sheet_l(pre) + 2) as nat,
                    |cc: int|
                        spec_new_cell(
                            pre,
                            pre.rows.len() as int,
                            cc,
                            offset as int,
                            if cc < sheet_l(pre) {
                                CellType::Sum
                            } else {
                                CellType::ShareData
                            },
                            None,
                        ),
                ),
            ).push(
                Seq::new(
                    sheet_l(pre) as nat,
                    |cc: int|
                        spec_new_cell(
                            pre,
                            pre.rows.len() as int + 1,
                            cc,
                            offset + 2,
                            CellType::Residue,
                            None,
                        ),
                ),
            ));
        }
    }

    /// Helper to populate the final, global-residue row.
    fn add_final_row(&mut self)
        requires
            sheet_fields_ok(old(self)@),
        ensures
            sheet_same_fields(old(self)@, final(self)@),
            final(self)@.rows =~~= old(self)@.rows.push(
                Seq::new(
                    sheet_l(old(self)@) as nat,
                    |c: int|
                        spec_new_cell(
                            old(self)@,
                            old(self)@.rows.len() as int,
                            c,
                            0,
                            CellType::GlobalResidue,
                            if old(self)@.mode == CreateMode::Create {
                                Some(global_residue_literal(old(self)@.checksum)[c])
                            } else {
                                None
                            },
                        ),
                ),
            ),
    {
        let l = self.checksum.len();
        let ridx = self.rows.len();
        let lit = global_literal_vec(self.checksum);
        let mut cells: Vec<Cell> = Vec::new();
        let mut c: usize = 0;
        while c < l
            invariant
                c <= l,
                l == sheet_l(self@),
                sheet_fields_ok(self@),
                ridx == self@.rows.len(),
                crate::poly::fe_seq(lit@) =~= global_residue_literal(self@.checksum),
                lit@.len() == l,
                cells@.len() == c,
                forall|j: int|
                    0 <= j < c ==> cells@[j]@ == spec_new_cell(
                        self@,
                        ridx as int,
                        j,
                        0,
                        CellType::GlobalResidue,
                        if self@.mode == CreateMode::Create {
                            Some(global_residue_literal(self@.checksum)[j])
                        } else {
                            None
                        },
                    ),
            decreases l - c,
        {
            let val = match self.create_mode {
                CreateMode::Create => Some(lit[c]),
                CreateMode::Verify => None,
            };
            proof {
                assert(crate::poly::fe_seq(lit@)[c as int] == lit@[c as int]@);
            }
            let cell = self.make_cell(0, ridx, c, CellType::GlobalResidue, val);
            cells.push(cell);
            c = c + 1;
        }
        let ghost pre = self@;
        self.rows.push(Row { cells });
        proof {
            assert(self@.rows =~~= pre.rows.push(
                Seq::new(
                    sheet_l(pre) as nat,
                    |cc: int|
                        spec_new_cell(
                            pre,
                            pre.rows.len() as int,
                            cc,
                            0,
                            CellType::GlobalResidue,
                            if pre.mode == CreateMode::Create {
                                Some(global_residue_literal(pre.checksum)[cc])
                            } else {
                                None
                            },
                        ),
                ),
            ));
        }
    }
}


/// The fixed global-residue literals are valid field sequences of the
/// generator length.
pub proof fn lemma_literal_valid(c: Checksum)
    ensures
        seq_valid(global_residue_literal(c)),
        global_residue_literal(c).len() == c.spec_len(),
{
}

/// A row that matches its construction keeps matching when the sheet's
/// other rows change.
proof fn lemma_row_matches_stable(m1: SheetModel, m2: SheetModel, r: int)
    requires
        sheet_same_fields(m1, m2),
        0 <= r < m1.rows.len(),
        r < m2.rows.len(),
        m2.rows[r] == m1.rows[r],
        row_matches(m1, r),
    ensures
        row_matches(m2, r),
{
    assert(sheet_n_rows(m1) == sheet_n_rows(m2));
    assert(spec_row_len(m1, r) == spec_row_len(m2, r));
    assert forall|c: int| 0 <= c < m2.rows[r].len() implies m2.rows[r][c] == spec_new_cell(
        m2,
        r,
        c,
        spec_row_offset(m2, r),
        spec_cell_ty(m2, r, c),
        spec_initial_val(m2, r, c),
    ) by {
        assert(m1.rows[r][c] == spec_new_cell(
            m1,
            r,
            c,
            spec_row_offset(m1, r),
            spec_cell_ty(m1, r, c),
            spec_initial_val(m1, r, c),
        ));
        assert(spec_row_offset(m1, r) == spec_row_offset(m2, r));
        assert(spec_cell_ty(m1, r, c) == spec_cell_ty(m2, r, c));
        assert(spec_initial_val(m1, r, c) == spec_initial_val(m2, r, c));
    }
}

/// A fully built sheet, every row matching its construction, is well formed.
proof fn lemma_built_wf(m: SheetModel)
    requires
        sheet_fields_ok(m),
        m.rows.len() == sheet_n_rows(m),
        forall|r: int| 0 <= r < m.rows.len() ==> #[trigger] row_matches(m, r),
    ensures
        sheet_wf(m),
{
    assert forall|r: int| 0 <= r < m.rows.len() implies (#[trigger] m.rows[r]).len()
        == spec_row_len(m, r) by {
        assert(row_matches(m, r));
    }
    assert forall|r: int, c: int|
        0 <= r < m.rows.len() && 0 <= c < m.rows[r].len() implies {
            let cell = #[trigger] m.rows[r][c];
            &&& cell.ty == spec_cell_ty(m, r, c)
            &&& cell.is_checksum == spec_is_checksum(m, r, c)
            &&& cell.id == spec_cell_id(m.idx, r as nat, c as nat)
            &&& (cell.val is Some ==> cell.val->0 < 32)
        } by {
        assert(row_matches(m, r));
        assert(m.rows[r][c] == spec_new_cell(
            m,
            r,
            c,
            spec_row_offset(m, r),
            spec_cell_ty(m, r, c),
            spec_initial_val(m, r, c),
        ));
        if r == 1 {
            crate::poly::lemma_hrp_residue_valid(m.hrp, m.checksum);
        }
        if r == sheet_n_rows(m) - 1 {
            lemma_literal_valid(m.checksum);
        }
    }
}

impl Worksheet {
    /// Constructs a new blank worksheet: `TooShort` when the size cannot
    /// hold the HRP and the checksum, `OddLength` when the implied data
    /// length is odd (for a size of exactly HRP plus checksum the subtraction
    /// wraps), and otherwise the fully shaped sheet with row 1 holding the
    /// HRP residue and, in create mode, the final row the fixed literal.
    pub fn new(hrp: &str, create_mode: CreateMode, size: usize, checksum: Checksum, idx: usize) -> (r:
        Result<Worksheet, Error>)
        requires
            hrp.is_ascii(),
            hrp@.len() + 16 <= usize::MAX,
            size <= usize::MAX / 64,
        ensures
            match r {
                Result::Err(Error::TooShort { minimum, actual }) => {
                    &&& size < hrp@.len() + checksum.spec_len()
                    &&& minimum == hrp@.len() + checksum.spec_len()
                    &&& actual == size
                },
                Result::Err(Error::OddLength { data_len }) => {
                    &&& size >= hrp@.len() + checksum.spec_len()
                    &&& if size == hrp@.len() + checksum.spec_len() {
                        data_len == usize::MAX
                    } else {
                        &&& (size - hrp@.len() - checksum.spec_len() - 1) % 2 == 1
                        &&& data_len == size - hrp@.len() - checksum.spec_len() - 1
                    }
                },
                Result::Ok(wk) => {
                    &&& size > hrp@.len() + checksum.spec_len()
                    &&& (size - hrp@.len() - checksum.spec_len() - 1) % 2 == 0
                    &&& wk@.hrp =~= upper_seq(hrp@)
                    &&& wk@.mode == create_mode
                    &&& wk@.size == size
                    &&& wk@.checksum == checksum
                    &&& wk@.idx == idx
                    &&& sheet_wf(wk@)
                    &&& forall|rr: int| 0 <= rr < wk@.rows.len() ==> #[trigger] row_matches(wk@, rr)
                },
                _ => false,
            },
    {
        let hrp_up = upper_str(hrp);
        let mut ret = Worksheet {
            hrp: hrp_up,
            create_mode,
            size,
            rows: Vec::new(),
            checksum,
            idx,
        };
        proof {
            assert(ret@.hrp =~= upper_seq(hrp@));
            assert(ret@.rows =~~= Seq::<Seq<CellModel>>::empty());
        }
        let h = ret.hrp_len();
        let l = ret.checksum.len();
        if size < h + l {
            return Err(Error::TooShort { minimum: h + l, actual: size });
        }
        if size == h + l {
            return Err(Error::OddLength { data_len: usize::MAX });
        }
        let data_len = size - h - l - 1;
        if data_len % 2 == 1 {
            return Err(Error::OddLength { data_len });
        }

        // Number of non-global-residue pairs of rows
        let n_pairs = data_len / 2 + 1;
        proof {
            assert(sheet_fields_ok(ret@));
            assert(sheet_n_pairs(ret@) == n_pairs as int);
            assert(sheet_n_rows(ret@) == 2 * (n_pairs as int) + 1);
        }
        let ghost m0 = ret@;

        // Treat first two rows specially
        ret.add_first_row();
        proof {
            assert(ret@.rows.len() == 1);
            assert(ret@.rows[0].len() == sheet_l(ret@));
            assert(row_matches(ret@, 0));
        }
        ret.add_second_row();
        proof {
            let ghost m2 = ret@;
            lemma_row_matches_stable(ret@, m2, 0);
            assert(row_matches(ret@, 0));
            assert(row_matches(ret@, 1));
        }
        // Then do the remaining rows except the global residue
        let mut i: usize = 0;
        while i < n_pairs - 1
            invariant
                i <= n_pairs - 1,
                1 <= n_pairs,
                n_pairs <= usize::MAX / 64,
                sheet_same_fields(m0, ret@),
                sheet_fields_ok(ret@),
                sheet_n_pairs(ret@) == n_pairs as int,
                2 * (n_pairs as int) == sheet_data_len(ret@) + 2,
                ret@.rows.len() == 2 + 2 * i,
                forall|rr: int| 0 <= rr < ret@.rows.len() ==> #[trigger] row_matches(ret@, rr),
            decreases n_pairs - 1 - i,
        {
            let ghost pre = ret@;
            proof {
                assert(2 * (i as int) + 2 <= sheet_data_len(ret@));
                assert(sheet_data_len(ret@) <= ret@.size);
            }
            ret.add_2nth_rows(2 * i);
            i = i + 1;
            proof {
                assert forall|rr: int| 0 <= rr < ret@.rows.len() implies #[trigger] row_matches(
                    ret@,
                    rr,
                ) by {
                    if rr < pre.rows.len() {
                        lemma_row_matches_stable(pre, ret@, rr);
                    } else {
                        assert(sheet_n_rows(ret@) == sheet_n_rows(pre));
                        assert(rr < sheet_n_rows(ret@) - 1);
                    }
                }
            }
        }
        // Finally stick the global residue row on
        let ghost before_final = ret@;
        ret.add_final_row();
        proof {
            assert forall|rr: int| 0 <= rr < ret@.rows.len() implies #[trigger] row_matches(
                ret@,
                rr,
            ) by {
                if rr < before_final.rows.len() {
                    lemma_row_matches_stable(before_final, ret@, rr);
                } else {
                    assert(rr == sheet_n_rows(ret@) - 1);
                }
            }
            lemma_built_wf(ret@);
        }
        Ok(ret)
    }
}


/// The grid of cell values of a sheet.
pub open spec fn sheet_vals(m: SheetModel) -> Seq<Seq<Option<u8>>> {
    Seq::new(m.rows.len(), |r: int| Seq::new(m.rows[r].len(), |c: int| m.rows[r][c].val))
}

/// Two sheets with the same static skeleton: only cell values may differ.
pub open spec fn sheet_same_shape(a: SheetModel, b: SheetModel) -> bool {
    &&& sheet_same_fields(a, b)
    &&& a.rows.len() == b.rows.len()
    &&& forall|r: int| 0 <= r < a.rows.len() ==> (#[trigger] b.rows[r]).len() == a.rows[r].len()
    &&& forall|r: int, c: int|
        0 <= r < a.rows.len() && 0 <= c < a.rows[r].len() ==> {
            let x = a.rows[r][c];
            let y = #[trigger] b.rows[r][c];
            y.ty == x.ty && y.is_checksum == x.is_checksum && y.id == x.id
        }
}

/// The result of playing a sequence of cell writes `(row, col, value)`, in
/// order, onto a grid of values.
pub open spec fn apply_writes(
    v: Seq<Seq<Option<u8>>>,
    ws: Seq<(int, int, u8)>,
) -> Seq<Seq<Option<u8>>>
    decreases ws.len(),
{
    if ws.len() == 0 {
        v
    } else {
        let prev = apply_writes(v, ws.drop_last());
        let w = ws.last();
        if 0 <= w.0 < prev.len() && 0 <= w.1 < prev[w.0].len() {
            prev.update(w.0, prev[w.0].update(w.1, Some(w.2)))
        } else {
            prev
        }
    }
}

/// The grid after storing the edited value, before propagation.
pub open spec fn vals_after_edit(m: SheetModel, ridx: int, cidx: int, fev: u8) -> Seq<
    Seq<Option<u8>>,
> {
    sheet_vals(m).update(ridx, sheet_vals(m)[ridx].update(cidx, Some(fev)))
}

/// The position below `(r, c)` on the staircase, when there is one: the next
/// row, two columns left when moving off a sum row below the first pair.
pub open spec fn spec_cell_below(m: SheetModel, r: int, c: int) -> Option<(int, int)> {
    if r >= m.rows.len() - 1 {
        None
    } else {
        let adj: int = if r > 0 && r % 2 == 0 {
            2
        } else {
            0
        };
        if adj > c {
            None
        } else {
            Some((r + 1, c - adj))
        }
    }
}

/// The position above `(r, c)` on the staircase, when there is one: the
/// previous row, two columns right when moving up from an odd row.
pub open spec fn spec_cell_above(m: SheetModel, r: int, c: int) -> Option<(int, int)> {
    if r == 0 {
        None
    } else {
        let adj: int = 2 * (r % 2);
        if c + adj >= m.rows[r - 1].len() {
            None
        } else {
            Some((r - 1, c + adj))
        }
    }
}

/// On a well-formed sheet, the cell below an existing cell exists.
pub proof fn lemma_below_in_range(m: SheetModel, r: int, c: int)
    requires
        sheet_wf(m),
        0 <= r < m.rows.len(),
        0 <= c < m.rows[r].len(),
        spec_cell_below(m, r, c) is Some,
    ensures
        ({
            let p = spec_cell_below(m, r, c)->0;
            &&& 0 <= p.0 < m.rows.len()
            &&& 0 <= p.1 < m.rows[p.0].len()
        }),
{
    let p = spec_cell_below(m, r, c)->0;
    assert(m.rows[r].len() == spec_row_len(m, r));
    assert(m.rows[p.0].len() == spec_row_len(m, p.0));
}

impl Worksheet {
    /// Helper function to offset a ridx/cidx pair downward.
    pub fn cell_below(&self, ridx: usize, cidx: usize) -> (r: Option<(usize, usize)>)
        requires
            self@.rows.len() >= 1,
        ensures
            match r {
                Some(p) => spec_cell_below(self@, ridx as int, cidx as int) == Some(
                    (p.0 as int, p.1 as int),
                ),
                None => spec_cell_below(self@, ridx as int, cidx as int) is None,
            },
    {
        // No more rows
        if ridx >= self.rows.len() - 1 {
            return None;
        }
        // No more rows in this column
        let offset_adj: usize = if ridx > 0 && ridx % 2 == 0 {
            2
        } else {
            0
        };
        if offset_adj > cidx {
            return None;
        }
        Some((ridx + 1, cidx - offset_adj))
    }

    /// Helper function to offset a ridx/cidx pair upward.
    pub fn cell_above(&self, ridx: usize, cidx: usize) -> (r: Option<(usize, usize)>)
        requires
            ridx < self@.rows.len(),
            cidx <= usize::MAX - 2,
        ensures
            match r {
                Some(p) => spec_cell_above(self@, ridx as int, cidx as int) == Some(
                    (p.0 as int, p.1 as int),
                ) && p.1 < self@.rows[p.0 as int].len(),
                None => spec_cell_above(self@, ridx as int, cidx as int) is None,
            },
    {
        // No more rows
        if ridx == 0 {
            return None;
        }
        // No more rows in this column
        let offset_adj: usize = 2 * (ridx % 2);
        if cidx + offset_adj >= self.rows[ridx - 1].cells.len() {
            return None;
        }
        proof {
            assert(self@.rows[ridx - 1].len() == self.rows@[ridx - 1].cells@.len());
        }
        Some((ridx - 1, cidx + offset_adj))
    }

    /// The number of rows of the sheet.
    pub fn n_rows(&self) -> (n: usize)
        ensures
            n == self@.rows.len(),
    {
        self.rows.len()
    }

    /// The number of cells of row `r`.
    pub fn row_len(&self, r: usize) -> (n: usize)
        requires
            r < self@.rows.len(),
        ensures
            n == self@.rows[r as int].len(),
    {
        proof {
            assert(self@.rows[r as int].len() == self.rows@[r as int].cells@.len());
        }
        self.rows[r].cells.len()
    }

    /// The symbol a cell currently shows: `None` for a blank cell or an
    /// out-of-range position.
    pub fn cell_symbol(&self, ridx: usize, cidx: usize) -> (r: Option<char>)
        requires
            sheet_wf(self@),
        ensures
            r == (if ridx < self@.rows.len() && cidx < self@.rows[ridx as int].len()
                && self@.rows[ridx as int][cidx as int].val is Some {
                Some(fe_char(self@.rows[ridx as int][cidx as int].val->0))
            } else {
                None::<char>
            }),
    {
        if ridx >= self.rows.len() {
            return None;
        }
        proof {
            assert(self@.rows[ridx as int].len() == self.rows@[ridx as int].cells@.len());
        }
        if cidx >= self.rows[ridx].cells.len() {
            return None;
        }
        match self.cell_val(ridx, cidx) {
            Some(fe) => {
                proof {
                    assert(self@.rows[ridx as int][cidx as int].val == Some(fe@));
                    assert(fe@ < 32);
                }
                Some(fe.to_char())
            },
            None => None,
        }
    }

    /// The value of cell `(r, c)`.
    pub(crate) fn cell_val(&self, r: usize, c: usize) -> (v: Option<Fe>)
        requires
            r < self@.rows.len(),
            c < self@.rows[r as int].len(),
        ensures
            opt_fe(v) == self@.rows[r as int][c as int].val,
    {
        self.rows[r].cells[c].val
    }

    /// The role and checksum flag of cell `(r, c)`.
    fn cell_role(&self, r: usize, c: usize) -> (t: (CellType, bool))
        requires
            r < self@.rows.len(),
            c < self@.rows[r as int].len(),
        ensures
            t.0 == self@.rows[r as int][c as int].ty,
            t.1 == self@.rows[r as int][c as int].is_checksum,
    {
        (self.rows[r].cells[c].ty, self.rows[r].cells[c].is_checksum)
    }

    /// A copy of the id of cell `(r, c)`.
    fn cell_id_of(&self, r: usize, c: usize) -> (id: String)
        requires
            r < self@.rows.len(),
            c < self@.rows[r as int].len(),
        ensures
            id@ == self@.rows[r as int][c as int].id,
    {
        self.rows[r].cells[c].dom_id.clone()
    }

    /// Store a value into cell `(r, c)`.
    pub(crate) fn set_cell_val(&mut self, r: usize, c: usize, val: Option<Fe>)
        requires
            r < old(self)@.rows.len(),
            c < old(self)@.rows[r as int].len(),
        ensures
            final(self)@.rows =~~= old(self)@.rows.update(
                r as int,
                old(self)@.rows[r as int].update(
                    c as int,
                    CellModel { val: opt_fe(val), ..old(self)@.rows[r as int][c as int] },
                ),
            ),
            sheet_same_fields(old(self)@, final(self)@),
    {
        self.rows[r].cells[c].val = val;
    }
}



/// The propagation rule of §4.F rooted at cell `(r, c)` justifies the write
/// `w = (row, col, value)` on the value grid `g`: the processed cell is
/// filled, and the write carries exactly the value the rule computes from
/// the grid — the residue of `[g(r,0), g(r,1)] * x^L` for the lower
/// diagonal, and the field sum of the two source cells for the sum and
/// residue rules, aimed at the position the staircase geometry names.
pub open spec fn rule_applies(
    m0: SheetModel,
    g: Seq<Seq<Option<u8>>>,
    r: int,
    c: int,
    w: (int, int, u8),
) -> bool {
    &&& 0 <= r < m0.rows.len()
    &&& 0 <= c < m0.rows[r].len()
    &&& g[r][c] is Some
    &&& ({
        let ty = m0.rows[r][c].ty;
        let cs = m0.rows[r][c].is_checksum;
        ||| {
            // lower-diagonal: both left cells of a sum row fill the residue
            // row below
            &&& ty == CellType::Sum
            &&& (c == 0 || c == 1)
            &&& g[r][0] is Some
            &&& g[r][1] is Some
            &&& w.0 == r + 1
            &&& 0 <= w.1 < m0.checksum.spec_len()
            &&& w.2 == spec_polymod(
                seq![g[r][0]->0, g[r][1]->0] + zeros(m0.checksum.spec_len()),
                generator(m0.checksum),
            )[w.1]
        }
        ||| {
            // forward sum: a data-side cell and the cell below feed the cell
            // two below
            &&& (ty == CellType::Sum || ty == CellType::ShareData)
            &&& !cs
            &&& !(ty == CellType::Sum && (c == 0 || c == 1))
            &&& spec_cell_below(m0, r, c) is Some
            &&& ({
                let mid = spec_cell_below(m0, r, c)->0;
                &&& g[mid.0][mid.1] is Some
                &&& spec_cell_below(m0, mid.0, mid.1) == Some((w.0, w.1))
                &&& w.2 == spec_add(g[r][c]->0, g[mid.0][mid.1]->0)
            })
        }
        ||| {
            // backward sum: a checksum-side cell and the cell above feed the
            // cell two above
            &&& (ty == CellType::Sum || ty == CellType::ShareData)
            &&& cs
            &&& spec_cell_above(m0, r, c) is Some
            &&& ({
                let mid = spec_cell_above(m0, r, c)->0;
                &&& g[mid.0][mid.1] is Some
                &&& spec_cell_above(m0, mid.0, mid.1) == Some((w.0, w.1))
                &&& w.2 == spec_add(g[r][c]->0, g[mid.0][mid.1]->0)
            })
        }
        ||| {
            // data-side residue: the cell and the cell above feed the cell
            // below
            &&& ty == CellType::Residue
            &&& !cs
            &&& spec_cell_above(m0, r, c) is Some
            &&& ({
                let a = spec_cell_above(m0, r, c)->0;
                &&& g[a.0][a.1] is Some
                &&& spec_cell_below(m0, r, c) == Some((w.0, w.1))
                &&& w.2 == spec_add(g[r][c]->0, g[a.0][a.1]->0)
            })
        }
        ||| {
            // checksum-side residue: the cell and the cell below feed the
            // cell above
            &&& ty == CellType::Residue
            &&& cs
            &&& spec_cell_below(m0, r, c) is Some
            &&& ({
                let b = spec_cell_below(m0, r, c)->0;
                &&& g[b.0][b.1] is Some
                &&& spec_cell_above(m0, r, c) == Some((w.0, w.1))
                &&& w.2 == spec_add(g[r][c]->0, g[b.0][b.1]->0)
            })
        }
    })
}

/// Some rule of §4.F justifies the write on this grid.
pub open spec fn write_justified(m0: SheetModel, g: Seq<Seq<Option<u8>>>, w: (int, int, u8)) -> bool {
    exists|r: int, c: int| #[trigger] rule_applies(m0, g, r, c, w)
}


/// The §4.F rule rooted at cell `(r, c)` makes no change on the grid `g`:
/// either a source it needs is missing, or its target already holds the
/// value it computes. The propagation loop leaves the edited cell in this
/// state, so an edit cannot simply be stored and ignored.
pub open spec fn edit_step_stable(m: SheetModel, g: Seq<Seq<Option<u8>>>, r: int, c: int) -> bool {
    let ty = m.rows[r][c].ty;
    let cs = m.rows[r][c].is_checksum;
    g[r][c] is Some ==> {
        if ty == CellType::Sum && (c == 0 || c == 1) {
            (g[r][0] is Some && g[r][1] is Some) ==> forall|n: int|
                0 <= n < m.checksum.spec_len() ==> g[r + 1][n] == Some(
                    spec_polymod(
                        seq![g[r][0]->0, g[r][1]->0] + zeros(m.checksum.spec_len()),
                        generator(m.checksum),
                    )[n],
                )
        } else if (ty == CellType::Sum || ty == CellType::ShareData) && !cs {
            (spec_cell_below(m, r, c) is Some && g[(spec_cell_below(m, r, c)->0).0][(
            spec_cell_below(m, r, c)->0).1] is Some && spec_cell_below(
                m,
                (spec_cell_below(m, r, c)->0).0,
                (spec_cell_below(m, r, c)->0).1,
            ) is Some) ==> ({
                let mid = spec_cell_below(m, r, c)->0;
                let t = spec_cell_below(m, mid.0, mid.1)->0;
                g[t.0][t.1] == Some(spec_add(g[r][c]->0, g[mid.0][mid.1]->0))
            })
        } else if (ty == CellType::Sum || ty == CellType::ShareData) && cs {
            (spec_cell_above(m, r, c) is Some && g[(spec_cell_above(m, r, c)->0).0][(
            spec_cell_above(m, r, c)->0).1] is Some && spec_cell_above(
                m,
                (spec_cell_above(m, r, c)->0).0,
                (spec_cell_above(m, r, c)->0).1,
            ) is Some) ==> ({
                let mid = spec_cell_above(m, r, c)->0;
                let t = spec_cell_above(m, mid.0, mid.1)->0;
                g[t.0][t.1] == Some(spec_add(g[r][c]->0, g[mid.0][mid.1]->0))
            })
        } else if ty == CellType::Residue && !cs {
            (spec_cell_above(m, r, c) is Some && g[(spec_cell_above(m, r, c)->0).0][(
            spec_cell_above(m, r, c)->0).1] is Some && spec_cell_below(m, r, c) is Some) ==> ({
                let a = spec_cell_above(m, r, c)->0;
                let t = spec_cell_below(m, r, c)->0;
                g[t.0][t.1] == Some(spec_add(g[r][c]->0, g[a.0][a.1]->0))
            })
        } else if ty == CellType::Residue && cs {
            (spec_cell_below(m, r, c) is Some && g[(spec_cell_below(m, r, c)->0).0][(
            spec_cell_below(m, r, c)->0).1] is Some && spec_cell_above(m, r, c) is Some) ==> ({
                let b = spec_cell_below(m, r, c)->0;
                let t = spec_cell_above(m, r, c)->0;
                g[t.0][t.1] == Some(spec_add(g[r][c]->0, g[b.0][b.1]->0))
            })
        } else {
            true
        }
    }
}

/// An action that sets the cell named by a write.
pub open spec fn is_set_action(act: crate::dom_action::Action, idx: nat, w: (int, int, u8)) -> bool {
    &&& act.ty == crate::dom_action::ActionType::SetValue
    &&& act.id@ == spec_cell_id(idx, w.0 as nat, w.1 as nat)
    &&& act.value == Some(fe_char(w.2))
}

/// The actions from position `k` on are exactly the `Set` records of the
/// write sequence `ws`; each write lands on an existing cell, changes the
/// value the grid held at that moment (the no-op guard), and carries the
/// value one of the §4.F rules computes from that grid.
pub open spec fn engine_writes_ok(
    m0: SheetModel,
    v0: Seq<Seq<Option<u8>>>,
    acts: Seq<crate::dom_action::Action>,
    k: int,
    ws: Seq<(int, int, u8)>,
) -> bool {
    &&& acts.len() == k + ws.len()
    &&& forall|j: int|
        0 <= j < ws.len() ==> {
            let w = #[trigger] ws[j];
            &&& 0 <= w.0 < m0.rows.len()
            &&& 0 <= w.1 < m0.rows[w.0].len()
            &&& w.2 < 32
            &&& is_set_action(acts[k + j], m0.idx, w)
            &&& apply_writes(v0, ws.take(j))[w.0][w.1] != Some(w.2)
            &&& write_justified(m0, apply_writes(v0, ws.take(j)), w)
        }
}

/// Writing one cell turns the value grid into the updated grid and leaves
/// the skeleton alone.
pub(crate) proof fn lemma_vals_update(m1: SheetModel, m2: SheetModel, r: int, c: int, x: Option<u8>)
    requires
        0 <= r < m1.rows.len(),
        0 <= c < m1.rows[r].len(),
        m2.rows =~~= m1.rows.update(r, m1.rows[r].update(c, CellModel { val: x, ..m1.rows[r][c] })),
        sheet_same_fields(m1, m2),
    ensures
        sheet_vals(m2) =~~= sheet_vals(m1).update(r, sheet_vals(m1)[r].update(c, x)),
        sheet_same_shape(m1, m2),
{
    assert forall|rr: int| 0 <= rr < m1.rows.len() implies (#[trigger] m2.rows[rr]).len()
        == m1.rows[rr].len() by {}
}

/// A value write inside the field preserves well-formedness.
pub(crate) proof fn lemma_wf_after_write(m1: SheetModel, m2: SheetModel, r: int, c: int, x: Option<u8>)
    requires
        sheet_wf(m1),
        0 <= r < m1.rows.len(),
        0 <= c < m1.rows[r].len(),
        m2.rows =~~= m1.rows.update(r, m1.rows[r].update(c, CellModel { val: x, ..m1.rows[r][c] })),
        sheet_same_fields(m1, m2),
        x is Some ==> x->0 < 32,
    ensures
        sheet_wf(m2),
{
    assert(sheet_n_rows(m2) == sheet_n_rows(m1));
    assert forall|rr: int| 0 <= rr < m2.rows.len() implies (#[trigger] m2.rows[rr]).len()
        == spec_row_len(m2, rr) by {
        assert(m1.rows[rr].len() == spec_row_len(m1, rr));
    }
    assert forall|rr: int, cc: int|
        0 <= rr < m2.rows.len() && 0 <= cc < m2.rows[rr].len() implies {
            let cell = #[trigger] m2.rows[rr][cc];
            &&& cell.ty == spec_cell_ty(m2, rr, cc)
            &&& cell.is_checksum == spec_is_checksum(m2, rr, cc)
            &&& cell.id == spec_cell_id(m2.idx, rr as nat, cc as nat)
            &&& (cell.val is Some ==> cell.val->0 < 32)
        } by {
        let old_cell = m1.rows[rr][cc];
        assert(old_cell.ty == spec_cell_ty(m1, rr, cc));
        assert(old_cell.is_checksum == spec_is_checksum(m1, rr, cc));
        assert(old_cell.id == spec_cell_id(m1.idx, rr as nat, cc as nat));
    }
}

/// The staircase geometry agrees on sheets of the same shape.
pub(crate) proof fn lemma_geom_same(a: SheetModel, b: SheetModel, r: int, c: int)
    requires
        sheet_same_shape(a, b),
        0 <= r < a.rows.len(),
    ensures
        spec_cell_below(a, r, c) == spec_cell_below(b, r, c),
        spec_cell_above(a, r, c) == spec_cell_above(b, r, c),
{
    if r > 0 {
        assert(b.rows[r - 1].len() == a.rows[r - 1].len());
    }
}

/// Shape agreement is transitive.
pub(crate) proof fn lemma_same_shape_trans(a: SheetModel, b: SheetModel, c: SheetModel)
    requires
        sheet_same_shape(a, b),
        sheet_same_shape(b, c),
    ensures
        sheet_same_shape(a, c),
{
    assert forall|r: int, cc: int|
        0 <= r < a.rows.len() && 0 <= cc < a.rows[r].len() implies {
            let x = a.rows[r][cc];
            let y = #[trigger] c.rows[r][cc];
            y.ty == x.ty && y.is_checksum == x.is_checksum && y.id == x.id
        } by {
        assert(b.rows[r].len() == a.rows[r].len());
        assert(b.rows[r][cc].ty == a.rows[r][cc].ty && b.rows[r][cc].is_checksum == a.rows[r][cc].is_checksum
            && b.rows[r][cc].id == a.rows[r][cc].id);
    }
}

/// Facts about extending a write sequence by one write.
proof fn lemma_writes_push(v0: Seq<Seq<Option<u8>>>, ws: Seq<(int, int, u8)>, w: (int, int, u8))
    ensures
        ws.push(w).take(ws.len() as int) =~= ws,
        forall|j: int| 0 <= j < ws.len() ==> ws.push(w).take(j) =~= ws.take(j),
        apply_writes(v0, ws.push(w)) == (if 0 <= w.0 < apply_writes(v0, ws).len() && 0 <= w.1
            < apply_writes(v0, ws)[w.0].len() {
            apply_writes(v0, ws).update(w.0, apply_writes(v0, ws)[w.0].update(w.1, Some(w.2)))
        } else {
            apply_writes(v0, ws)
        }),
{
    assert(ws.push(w).drop_last() =~= ws);
    assert(ws.push(w).last() == w);
    assert(apply_writes(v0, ws.push(w)) == apply_writes(v0, ws.push(w)));
    assert forall|j: int| 0 <= j < ws.len() implies ws.push(w).take(j) =~= ws.take(j) by {}
}

impl Worksheet {
    /// Write `fe` into cell `(r, c)` unless it already holds it; on a write,
    /// record a `Set` action carrying the cell's id and new symbol.
    fn write_and_act(&mut self, r: usize, c: usize, fe: Fe, acts: &mut Vec<crate::dom_action::Action>) -> (wrote:
        bool)
        requires
            r < old(self)@.rows.len(),
            c < old(self)@.rows[r as int].len(),
            fe_valid(fe),
        ensures
            wrote == (old(self)@.rows[r as int][c as int].val != Some(fe@)),
            sheet_same_fields(old(self)@, final(self)@),
            wrote ==> final(self)@.rows =~~= old(self)@.rows.update(
                r as int,
                old(self)@.rows[r as int].update(
                    c as int,
                    CellModel { val: Some(fe@), ..old(self)@.rows[r as int][c as int] },
                ),
            ),
            wrote ==> {
                &&& final(acts)@.len() == old(acts)@.len() + 1
                &&& forall|j: int| 0 <= j < old(acts)@.len() ==> final(acts)@[j] == old(acts)@[j]
                &&& final(acts)@.last().ty == crate::dom_action::ActionType::SetValue
                &&& final(acts)@.last().id@ == old(self)@.rows[r as int][c as int].id
                &&& final(acts)@.last().value == Some(fe_char(fe@))
            },
            !wrote ==> final(self)@ == old(self)@ && final(acts)@ == old(acts)@,
    {
        let cur = self.cell_val(r, c);
        if let Some(x) = cur {
            proof {
                crate::fe::lemma_fe_eq(x, fe);
            }
            if x == fe {
                proof {
                    assert(self@ == old(self)@);
                }
                return false;
            }
        }
        let id = self.cell_id_of(r, c);
        self.set_cell_val(r, c, Some(fe));
        let sym = fe.to_char();
        acts.push(crate::dom_action::Action {
            ty: crate::dom_action::ActionType::SetValue,
            id,
            value: Some(sym),
        });
        true
    }
}


/// A character a single-character edit accepts: its upper-cased form is in
/// the bech32 alphabet.
pub open spec fn is_valid_symbol_char(c: char) -> bool {
    fe_of_char(spec_upper(c)) is Some
}

/// How many flash actions precede the set actions: one when the typed
/// character needed upper-casing.
pub open spec fn flash_count(ch: char, ch_u: char) -> int {
    if ch == ch_u {
        0
    } else {
        1
    }
}

/// What a successful single-symbol edit leaves behind: the optional
/// flash-set head and `Set` records of exactly the propagation's writes.
/// Each write is justified by a §4.F rule against the grid at its moment
/// and changes its target; the fold of the writes over the edited grid is
/// the final grid; and when no write happened at all, the edited cell's own
/// rule was already satisfied on the edited grid.
pub open spec fn valid_edit_outcome(
    m0: SheetModel,
    m1: SheetModel,
    acts: Seq<crate::dom_action::Action>,
    ridx: int,
    cidx: int,
    ch: char,
) -> bool {
    &&& acts.len() >= flash_count(ch, spec_upper(ch))
    &&& (ch != spec_upper(ch) ==> acts[0].ty == crate::dom_action::ActionType::FlashSet
        && acts[0].id@ == spec_cell_id(m0.idx, ridx as nat, cidx as nat) && acts[0].value == Some(
        spec_upper(ch),
    ))
    &&& exists|ws: Seq<(int, int, u8)>|
        {
            &&& #[trigger] engine_writes_ok(
                m0,
                vals_after_edit(m0, ridx, cidx, fe_of_char(spec_upper(ch))->0),
                acts,
                flash_count(ch, spec_upper(ch)),
                ws,
            )
            &&& sheet_vals(m1) == apply_writes(
                vals_after_edit(m0, ridx, cidx, fe_of_char(spec_upper(ch))->0),
                ws,
            )
            &&& (ws.len() == 0 ==> edit_step_stable(
                m0,
                vals_after_edit(m0, ridx, cidx, fe_of_char(spec_upper(ch))->0),
                ridx,
                cidx,
            ))
        }
}

/// What `handle_input_change` leaves behind for an in-range edit: an empty
/// edit clears the cell silently, a valid symbol is stored and propagated,
/// anything else flashes the cell and changes nothing.
pub open spec fn ok_edit_outcome(
    m0: SheetModel,
    m1: SheetModel,
    acts: Seq<crate::dom_action::Action>,
    ridx: int,
    cidx: int,
    v: Seq<char>,
) -> bool {
    &&& ridx < m0.rows.len()
    &&& cidx < m0.rows[ridx].len()
    &&& if v.len() == 0 {
        &&& acts.len() == 0
        &&& sheet_vals(m1) =~~= sheet_vals(m0).update(
            ridx,
            sheet_vals(m0)[ridx].update(cidx, None::<u8>),
        )
    } else if v.len() == 1 && is_valid_symbol_char(v[0]) {
        valid_edit_outcome(m0, m1, acts, ridx, cidx, v[0])
    } else {
        &&& m1 == m0
        &&& acts.len() == 1
        &&& acts[0].ty == crate::dom_action::ActionType::FlashError
        &&& acts[0].id@ == spec_cell_id(m0.idx, ridx as nat, cidx as nat)
        &&& acts[0].value is None
    }
}

/// One engine write keeps every loop fact: well-formedness, the shape, the
/// action/write correspondence and the value fold.
proof fn lemma_engine_step(
    m0: SheetModel,
    v0: Seq<Seq<Option<u8>>>,
    mid: SheetModel,
    cur: SheetModel,
    acts_old: Seq<crate::dom_action::Action>,
    acts_new: Seq<crate::dom_action::Action>,
    k: int,
    ws: Seq<(int, int, u8)>,
    tr: int,
    tc: int,
    x: u8,
)
    requires
        sheet_wf(m0),
        sheet_wf(mid),
        sheet_same_shape(m0, mid),
        0 <= tr < mid.rows.len(),
        0 <= tc < mid.rows[tr].len(),
        x < 32,
        mid.rows[tr][tc].val != Some(x),
        write_justified(m0, sheet_vals(mid), (tr, tc, x)),
        cur.rows =~~= mid.rows.update(
            tr,
            mid.rows[tr].update(tc, CellModel { val: Some(x), ..mid.rows[tr][tc] }),
        ),
        sheet_same_fields(mid, cur),
        engine_writes_ok(m0, v0, acts_old, k, ws),
        k >= 0,
        sheet_vals(mid) =~~= apply_writes(v0, ws),
        acts_new.len() == acts_old.len() + 1,
        forall|j: int| 0 <= j < acts_old.len() ==> acts_new[j] == acts_old[j],
        acts_new.last().ty == crate::dom_action::ActionType::SetValue,
        acts_new.last().id@ == mid.rows[tr][tc].id,
        acts_new.last().value == Some(fe_char(x)),
    ensures
        sheet_wf(cur),
        sheet_same_shape(m0, cur),
        engine_writes_ok(m0, v0, acts_new, k, ws.push((tr, tc, x))),
        sheet_vals(cur) =~~= apply_writes(v0, ws.push((tr, tc, x))),
{
    let w = (tr, tc, x);
    let ws2 = ws.push(w);
    lemma_writes_push(v0, ws, w);
    lemma_vals_update(mid, cur, tr, tc, Some(x));
    lemma_wf_after_write(mid, cur, tr, tc, Some(x));
    lemma_same_shape_trans(m0, mid, cur);
    assert(sheet_vals(mid).len() == mid.rows.len());
    assert(sheet_vals(mid)[tr].len() == mid.rows[tr].len());
    assert(apply_writes(v0, ws2) =~~= sheet_vals(mid).update(
        tr,
        sheet_vals(mid)[tr].update(tc, Some(x)),
    ));
    assert(sheet_vals(cur) =~~= apply_writes(v0, ws2));
    assert(m0.rows[tr].len() == mid.rows[tr].len());
    assert(m0.rows[tr][tc].id == mid.rows[tr][tc].id);
    assert(m0.rows[tr][tc].id == spec_cell_id(m0.idx, tr as nat, tc as nat));
    assert forall|j: int| 0 <= j < ws2.len() implies {
        let ww = #[trigger] ws2[j];
        &&& 0 <= ww.0 < m0.rows.len()
        &&& 0 <= ww.1 < m0.rows[ww.0].len()
        &&& ww.2 < 32
        &&& is_set_action(acts_new[k + j], m0.idx, ww)
        &&& apply_writes(v0, ws2.take(j))[ww.0][ww.1] != Some(ww.2)
    } by {
        if j < ws.len() {
            assert(ws2[j] == ws[j]);
            let ww = ws[j];
            assert(0 <= ww.0 < m0.rows.len() && 0 <= ww.1 < m0.rows[ww.0].len() && ww.2 < 32
                && is_set_action(acts_old[k + j], m0.idx, ww) && apply_writes(v0, ws.take(j))[ww.0][ww.1]
                != Some(ww.2));
            assert(acts_new[k + j] == acts_old[k + j]);
            assert(ws2.take(j) =~= ws.take(j));
        } else {
            assert(j == ws.len());
            assert(ws2[j] == w);
            assert(ws2.take(j) =~= ws);
            assert(acts_new[k + j] == acts_new.last());
            assert(apply_writes(v0, ws)[tr][tc] == sheet_vals(mid)[tr][tc]);
            assert(sheet_vals(mid)[tr][tc] == mid.rows[tr][tc].val);
        }
    }
}

impl Worksheet {
    /// The propagation loop's running facts: the sheet stays well formed
    /// and keeps its skeleton, and the actions so far are the optional
    /// flash-set head followed by the records of the writes so far, whose
    /// fold is the current value grid.
    pub open spec fn engine_inv(
        m0: SheetModel,
        v0: Seq<Seq<Option<u8>>>,
        cur: SheetModel,
        acts: Seq<crate::dom_action::Action>,
        k: int,
        ws: Seq<(int, int, u8)>,
        ridx: int,
        cidx: int,
        ch_u: char,
    ) -> bool {
        &&& sheet_wf(m0)
        &&& sheet_wf(cur)
        &&& sheet_same_shape(m0, cur)
        &&& (k == 0 || k == 1)
        &&& sheet_vals(cur) == apply_writes(v0, ws)
        &&& engine_writes_ok(m0, v0, acts, k, ws)
        &&& (k == 1 ==> acts.len() >= 1 && acts[0].ty == crate::dom_action::ActionType::FlashSet
            && acts[0].id@ == spec_cell_id(m0.idx, ridx as nat, cidx as nat) && acts[0].value
            == Some(ch_u))
    }

    /// Every queued position names a cell above the final row.
    pub open spec fn queue_ok(m0: SheetModel, q: Seq<(usize, usize)>) -> bool {
        forall|qi: int|
            0 <= qi < q.len() ==> {
                let e = #[trigger] q[qi];
                &&& e.0 + 1 < m0.rows.len()
                &&& e.1 < m0.rows[e.0 as int].len()
            }
    }

    /// The lower-diagonal step: both cells at the left edge of a sum row are
    /// known, so the residue of their two-term polynomial fills the row
    /// below.
    #[verifier::rlimit(100)]
    fn step_diagonal(
        &mut self,
        r: usize,
        c: usize,
        ret: &mut Vec<crate::dom_action::Action>,
        queue: &mut std::collections::VecDeque<(usize, usize)>,
        Ghost(m0): Ghost<SheetModel>,
        Ghost(v0): Ghost<Seq<Seq<Option<u8>>>>,
        Ghost(k): Ghost<int>,
        Ghost(ws): Ghost<Seq<(int, int, u8)>>,
        Ghost(ridx): Ghost<int>,
        Ghost(cidx): Ghost<int>,
        Ghost(ch_u): Ghost<char>,
    ) -> (wso: Ghost<Seq<(int, int, u8)>>)
        requires
            Worksheet::engine_inv(m0, v0, old(self)@, old(ret)@, k, ws, ridx, cidx, ch_u),
            Worksheet::queue_ok(m0, old(queue)@),
            r + 1 < m0.rows.len(),
            c < m0.rows[r as int].len(),
            old(self)@.rows[r as int][c as int].ty == CellType::Sum,
            c == 0 || c == 1,
        ensures
            Worksheet::engine_inv(m0, v0, final(self)@, final(ret)@, k, wso@, ridx, cidx, ch_u),
            Worksheet::queue_ok(m0, final(queue)@),
            wso@.len() >= ws.len(),
            wso@.len() == ws.len() ==> final(self)@ == old(self)@ && final(queue)@ == old(
                queue,
            )@ && ((old(self)@.rows[r as int][0].val is Some && old(self)@.rows[r as int][1].val
                is Some) ==> forall|n2: int|
                0 <= n2 < m0.checksum.spec_len() ==> old(self)@.rows[r as int + 1][n2].val == Some(
                    spec_polymod(
                        seq![
                            old(self)@.rows[r as int][0].val->0,
                            old(self)@.rows[r as int][1].val->0,
                        ] + zeros(m0.checksum.spec_len()),
                        generator(m0.checksum),
                    )[n2],
                )),
    {
        let ghost wsg = ws;
        proof {
            assert(self@.rows[r as int][c as int].ty == spec_cell_ty(self@, r as int, c as int));
            assert(sheet_n_rows(self@) == self@.rows.len());
            assert(r % 2 == 0 && r >= 2 && r as int != sheet_n_rows(self@) - 1);
            assert(self@.rows[r as int].len() == sheet_l(self@) + 2);
            assert(self@.rows[r as int + 1].len() == sheet_l(self@));
            assert(self@.rows[r as int + 1].len() == m0.rows[r as int + 1].len());
            assert(m0.rows[r as int][c as int].ty == self@.rows[r as int][c as int].ty);
            assert(m0.checksum == self@.checksum);
        }
        let l = self.checksum.len();
        let fe1_opt = self.cell_val(r, 0);
        let fe2_opt = self.cell_val(r, 1);
        if fe1_opt.is_some() && fe2_opt.is_some() {
            let fe1 = fe1_opt.unwrap();
            let fe2 = fe2_opt.unwrap();
            proof {
                assert(fe_valid(fe1) && fe_valid(fe2));
            }
            // compute residue...
            let mut poly = Poly::from_fe(fe1);
            poly.mul_by_x_then_add(fe2);
            poly.mul_by_x(l);
            proof {
                assert(crate::poly::poly_valid(&poly));
                assert(poly@ =~= seq![fe1@, fe2@] + zeros(m0.checksum.spec_len()));
            }
            let residue = match self.checksum {
                Checksum::Codex32 => poly.codex32_polymod(),
                Checksum::Bech32 => poly.bech32_polymod(),
            };
            let coeffs = residue.iter();
            proof {
                assert(coeffs@.len() == sheet_l(self@));
                assert(seq_valid(crate::poly::fe_seq(coeffs@)));
                assert(crate::poly::fe_seq(coeffs@) == spec_polymod(
                    seq![fe1@, fe2@] + zeros(m0.checksum.spec_len()),
                    generator(m0.checksum),
                ));
                assert(sheet_vals(self@)[r as int][0] == self@.rows[r as int][0].val);
                assert(sheet_vals(self@)[r as int][1] == self@.rows[r as int][1].val);
                assert(sheet_vals(self@)[r as int][0] == Some(fe1@));
                assert(sheet_vals(self@)[r as int][1] == Some(fe2@));
            }
            // ...then put it into the next line's cells
            let mut n: usize = 0;
            while n < l
                invariant
                    n <= l,
                    l == sheet_l(m0),
                    Worksheet::engine_inv(m0, v0, self@, ret@, k, wsg, ridx, cidx, ch_u),
                    Worksheet::queue_ok(m0, queue@),
                    r + 1 < m0.rows.len(),
                    r + 2 < m0.rows.len(),
                    c < m0.rows[r as int].len(),
                    c == 0 || c == 1,
                    m0.rows[r as int][c as int].ty == CellType::Sum,
                    coeffs@.len() == l,
                    seq_valid(crate::poly::fe_seq(coeffs@)),
                    crate::poly::fe_seq(coeffs@) == spec_polymod(
                        seq![fe1@, fe2@] + zeros(m0.checksum.spec_len()),
                        generator(m0.checksum),
                    ),
                    sheet_vals(self@)[r as int][0] == Some(fe1@),
                    sheet_vals(self@)[r as int][1] == Some(fe2@),
                    m0.rows[r as int + 1].len() == l,
                    wsg.len() >= ws.len(),
                    wsg.len() == ws.len() ==> self@ == old(self)@ && ret@ == old(ret)@ && queue@
                        == old(queue)@,
                    wsg.len() == ws.len() ==> forall|n2: int|
                        0 <= n2 < n ==> self@.rows[r as int + 1][n2].val == Some(
                            crate::poly::fe_seq(coeffs@)[n2],
                        ),
                decreases l - n,
            {
                let fe_n = coeffs[n];
                proof {
                    assert(crate::poly::fe_seq(coeffs@)[n as int] == coeffs@[n as int]@);
                    assert(fe_valid(fe_n));
                    assert(self@.rows[r as int + 1].len() == m0.rows[r as int + 1].len());
                }
                let ghost mid = self@;
                let ghost acts_old = ret@;
                let wrote = self.write_and_act(r + 1, n, fe_n, &mut *ret);
                if wrote {
                    queue.push_back((r + 1, n));
                    proof {
                        let w: (int, int, u8) = (r as int + 1, n as int, fe_n@);
                        assert(sheet_vals(mid)[r as int][c as int] is Some);
                        assert(rule_applies(m0, sheet_vals(mid), r as int, c as int, w));
                        assert(write_justified(m0, sheet_vals(mid), w));
                        lemma_engine_step(
                            m0,
                            v0,
                            mid,
                            self@,
                            acts_old,
                            ret@,
                            k,
                            wsg,
                            r as int + 1,
                            n as int,
                            fe_n@,
                        );
                        wsg = wsg.push((r as int + 1, n as int, fe_n@));
                        assert(self@.rows[r as int] =~~= mid.rows[r as int]);
                        assert(sheet_vals(self@)[r as int][0] == self@.rows[r as int][0].val);
                        assert(sheet_vals(self@)[r as int][1] == self@.rows[r as int][1].val);
                    }
                } else {
                    proof {
                        assert(self@.rows[r as int + 1][n as int].val == Some(fe_n@));
                    }
                }
                n = n + 1;
            }
            proof {
                if wsg.len() == ws.len() {
                    assert(fe1@ == old(self)@.rows[r as int][0].val->0);
                    assert(fe2@ == old(self)@.rows[r as int][1].val->0);
                    assert(forall|n2: int|
                        0 <= n2 < m0.checksum.spec_len() ==> old(self)@.rows[r as int + 1][n2].val
                            == Some(crate::poly::fe_seq(coeffs@)[n2]));
                }
            }
        }
        Ghost(wsg)
    }

    /// One sum step: add this cell to its neighbour two below (data side) or
    /// two above (checksum side), or one step for a residue cell, writing
    /// the target when the sum differs from what it holds.
    #[verifier::rlimit(100)]
    fn step_sum(
        &mut self,
        r: usize,
        c: usize,
        fe_here: Fe,
        tr: usize,
        tc: usize,
        sr: usize,
        sc: usize,
        ret: &mut Vec<crate::dom_action::Action>,
        queue: &mut std::collections::VecDeque<(usize, usize)>,
        front: bool,
        Ghost(m0): Ghost<SheetModel>,
        Ghost(v0): Ghost<Seq<Seq<Option<u8>>>>,
        Ghost(k): Ghost<int>,
        Ghost(ws): Ghost<Seq<(int, int, u8)>>,
        Ghost(ridx): Ghost<int>,
        Ghost(cidx): Ghost<int>,
        Ghost(ch_u): Ghost<char>,
    ) -> (wso: Ghost<Seq<(int, int, u8)>>)
        requires
            Worksheet::engine_inv(m0, v0, old(self)@, old(ret)@, k, ws, ridx, cidx, ch_u),
            Worksheet::queue_ok(m0, old(queue)@),
            r + 1 < m0.rows.len(),
            c < m0.rows[r as int].len(),
            old(self)@.rows[r as int][c as int].val == Some(fe_here@),
            sr < m0.rows.len(),
            sc < m0.rows[sr as int].len(),
            old(self)@.rows[sr as int][sc as int].val is Some,
            tr + 1 < m0.rows.len(),
            tc < m0.rows[tr as int].len(),
            write_justified(
                m0,
                sheet_vals(old(self)@),
                (tr as int, tc as int, spec_add(fe_here@, old(self)@.rows[sr as int][sc as int].val->0)),
            ),
        ensures
            Worksheet::engine_inv(m0, v0, final(self)@, final(ret)@, k, wso@, ridx, cidx, ch_u),
            Worksheet::queue_ok(m0, final(queue)@),
            wso@.len() >= ws.len(),
            wso@.len() == ws.len() ==> final(self)@ == old(self)@ && final(queue)@ == old(
                queue,
            )@ && old(self)@.rows[tr as int][tc as int].val == Some(
                spec_add(fe_here@, old(self)@.rows[sr as int][sc as int].val->0),
            ),
    {
        let ghost wsg = ws;
        let fe2_opt = self.cell_val(sr, sc);
        let fe2 = fe2_opt.unwrap();
        proof {
            assert(fe_valid(fe_here));
            assert(fe_valid(fe2));
        }
        let fe3 = fe_here.add(fe2);
        proof {
            crate::poly::lemma_add_bound(fe_here@, fe2@);
            assert(fe2@ == old(self)@.rows[sr as int][sc as int].val->0);
            assert(write_justified(m0, sheet_vals(self@), (tr as int, tc as int, fe3@)));
        }
        let ghost mid = self@;
        let ghost acts_old = ret@;
        let wrote = self.write_and_act(tr, tc, fe3, &mut *ret);
        if wrote {
            if front {
                queue.push_front((tr, tc));
            } else {
                queue.push_back((tr, tc));
            }
            proof {
                lemma_engine_step(
                    m0,
                    v0,
                    mid,
                    self@,
                    acts_old,
                    ret@,
                    k,
                    wsg,
                    tr as int,
                    tc as int,
                    fe3@,
                );
                wsg = wsg.push((tr as int, tc as int, fe3@));
            }
        }
        Ghost(wsg)
    }

    /// Store a freshly parsed symbol and run the propagation queue.
    #[verifier::rlimit(100)]
    fn apply_edit(&mut self, ridx: usize, cidx: usize, fe: Fe, ch: char, ch_u: char) -> (acts: Vec<
        crate::dom_action::Action,
    >)
        requires
            sheet_wf(old(self)@),
            ridx < old(self)@.rows.len(),
            cidx < old(self)@.rows[ridx as int].len(),
            ridx + 1 != old(self)@.rows.len(),
            fe_valid(fe),
            ch_u == spec_upper(ch),
            fe_of_char(ch_u) == Some(fe@),
        ensures
            sheet_wf(final(self)@),
            sheet_same_shape(old(self)@, final(self)@),
            acts@.len() >= flash_count(ch, ch_u),
            ch != ch_u ==> acts@[0].ty == crate::dom_action::ActionType::FlashSet && acts@[0].id@
                == spec_cell_id(old(self)@.idx, ridx as nat, cidx as nat) && acts@[0].value
                == Some(ch_u),
            exists|ws: Seq<(int, int, u8)>|
                {
                    &&& #[trigger] engine_writes_ok(
                        old(self)@,
                        vals_after_edit(old(self)@, ridx as int, cidx as int, fe@),
                        acts@,
                        flash_count(ch, ch_u),
                        ws,
                    )
                    &&& sheet_vals(final(self)@) == apply_writes(
                        vals_after_edit(old(self)@, ridx as int, cidx as int, fe@),
                        ws,
                    )
                    &&& (ws.len() == 0 ==> edit_step_stable(
                        old(self)@,
                        vals_after_edit(old(self)@, ridx as int, cidx as int, fe@),
                        ridx as int,
                        cidx as int,
                    ))
                },
    {
        let ghost m0 = self@;
        let ghost fev = fe@;
        let ghost pre_edit = self@;
        self.set_cell_val(ridx, cidx, Some(fe));
        proof {
            lemma_vals_update(pre_edit, self@, ridx as int, cidx as int, Some(fev));
            lemma_wf_after_write(pre_edit, self@, ridx as int, cidx as int, Some(fev));
        }
        let ghost v0 = vals_after_edit(m0, ridx as int, cidx as int, fev);

        let mut ret: Vec<crate::dom_action::Action> = Vec::new();
        let lower = ch != ch_u;
        if lower {
            let id = self.cell_id_of(ridx, cidx);
            ret.push(crate::dom_action::Action {
                ty: crate::dom_action::ActionType::FlashSet,
                id,
                value: Some(ch_u),
            });
        }
        let ghost k: int = if lower {
            1int
        } else {
            0int
        };

        // Actually update the sheet
        let mut queue: std::collections::VecDeque<(usize, usize)> =
            std::collections::VecDeque::with_capacity(2 * self.checksum.len());
        queue.push_back((ridx, cidx));
        let ghost mut ws: Seq<(int, int, u8)> = Seq::empty();
        proof {
            assert(sheet_vals(self@) =~~= apply_writes(v0, ws));
            assert(engine_writes_ok(m0, v0, ret@, k, ws));
            assert(Worksheet::engine_inv(m0, v0, self@, ret@, k, ws, ridx as int, cidx as int, ch_u));
            assert(queue@ =~= seq![(ridx, cidx)]);
        }

        // The no-op guard drives the queue to quiescence in practice; the
        // counter gives the loop an explicit decreasing measure.
        let mut fuel: usize = usize::MAX;
        while queue.len() > 0 && fuel > 0
            invariant
                Worksheet::engine_inv(m0, v0, self@, ret@, k, ws, ridx as int, cidx as int, ch_u),
                Worksheet::queue_ok(m0, queue@),
                ridx < m0.rows.len(),
                cidx < m0.rows[ridx as int].len(),
                v0 == vals_after_edit(m0, ridx as int, cidx as int, fev),
                ws.len() == 0 ==> ((fuel == usize::MAX && queue@ =~= seq![(ridx, cidx)]) || (
                queue@.len() == 0 && edit_step_stable(m0, v0, ridx as int, cidx as int))),
            decreases fuel,
        {
            fuel = fuel - 1;
            let ghost q0 = queue@;
            let rc = queue.pop_front().unwrap();
            let r = rc.0;
            let c = rc.1;
            proof {
                assert(self@.rows.len() == m0.rows.len());
                assert(self@.rows[r as int].len() == m0.rows[r as int].len());
                if ws.len() == 0 {
                    assert(q0 =~= seq![(ridx, cidx)]);
                    assert(rc == (ridx, cidx));
                    assert(r == ridx && c == cidx);
                    assert(queue@.len() == 0);
                    assert(apply_writes(v0, ws) == v0);
                    assert(sheet_vals(self@) == v0);
                }
            }
            // First, if the cell we are updating is blank, just skip it.
            let cur_val = self.cell_val(r, c);
            if cur_val.is_none() {
                proof {
                    if ws.len() == 0 {
                        assert(sheet_vals(m0).len() == m0.rows.len());
                        assert(sheet_vals(m0)[ridx as int].len() == m0.rows[ridx as int].len());
                        assert(v0[ridx as int][cidx as int] == Some(fev));
                        assert(sheet_vals(self@)[r as int][c as int] == self@.rows[r as int][c as int].val);
                        assert(false);
                    }
                }
                continue;
            }
            let fe_here = cur_val.unwrap();
            proof {
                assert(self@.rows[r as int][c as int].val == Some(fe_here@));
            }
            let role = self.cell_role(r, c);
            proof {
                assert(self@.rows[r as int][c as int].ty == spec_cell_ty(self@, r as int, c as int));
                assert(sheet_n_rows(self@) == self@.rows.len());
                assert(2 * sheet_n_pairs(self@) == sheet_data_len(self@) + 2);
            }
            match (role.0, role.1) {
                (CellType::Sum, _) if c == 0 || c == 1 => {
                    let ghost s_pre = self@;
                    let wso = self.step_diagonal(
                        r,
                        c,
                        &mut ret,
                        &mut queue,
                        Ghost(m0),
                        Ghost(v0),
                        Ghost(k),
                        Ghost(ws),
                        Ghost(ridx as int),
                        Ghost(cidx as int),
                        Ghost(ch_u),
                    );
                    proof {
                        let ghost ws_old = ws;
                        ws = wso@;
                        if ws.len() == 0 {
                            assert(ws_old.len() == 0);
                            assert(self@ == s_pre);
                            assert(m0.rows[r as int][c as int].ty == s_pre.rows[r as int][c as int].ty);
                            assert(sheet_vals(s_pre)[r as int][0] == s_pre.rows[r as int][0].val);
                            assert(sheet_vals(s_pre)[r as int][1] == s_pre.rows[r as int][1].val);
                            assert(sheet_vals(s_pre)[r as int][c as int] == s_pre.rows[r as int][c as int].val);
                            assert forall|n2: int| 0 <= n2 < m0.checksum.spec_len() implies #[trigger] sheet_vals(
                                s_pre,
                            )[r as int + 1][n2] == s_pre.rows[r as int + 1][n2].val by {
                                assert(sheet_vals(s_pre)[r as int + 1].len() == s_pre.rows[r as int
                                    + 1].len());
                            }
                            assert(edit_step_stable(m0, v0, ridx as int, cidx as int));
                        }
                    }
                },
                (CellType::Sum, false) | (CellType::ShareData, false) => {
                    // For sum cells, we try to add to the cell below
                    let below_opt = self.cell_below(r, c);
                    if below_opt.is_none() {
                        proof {
                            if ws.len() == 0 {
                            assert(m0.rows[r as int][c as int].ty == self@.rows[r as int][c as int].ty);
                            assert(m0.rows[r as int][c as int].is_checksum == self@.rows[r as int][c as int].is_checksum);
                            lemma_geom_same(m0, self@, r as int, c as int);
                                assert(edit_step_stable(m0, v0, ridx as int, cidx as int));
                            }
                        }
                        continue;
                    }
                    let below = below_opt.unwrap();
                    proof {
                        lemma_below_in_range(self@, r as int, c as int);
                    }
                    let fe2_opt = self.cell_val(below.0, below.1);
                    if fe2_opt.is_none() {
                        proof {
                            if ws.len() == 0 {
                            assert(m0.rows[r as int][c as int].ty == self@.rows[r as int][c as int].ty);
                            assert(m0.rows[r as int][c as int].is_checksum == self@.rows[r as int][c as int].is_checksum);
                            lemma_geom_same(m0, self@, r as int, c as int);
                                assert(sheet_vals(self@)[below.0 as int][below.1 as int]
                                    == self@.rows[below.0 as int][below.1 as int].val);
                                assert(edit_step_stable(m0, v0, ridx as int, cidx as int));
                            }
                        }
                        continue;
                    }
                    let below2_opt = self.cell_below(below.0, below.1);
                    if below2_opt.is_none() {
                        proof {
                            if ws.len() == 0 {
                            assert(m0.rows[r as int][c as int].ty == self@.rows[r as int][c as int].ty);
                            assert(m0.rows[r as int][c as int].is_checksum == self@.rows[r as int][c as int].is_checksum);
                            lemma_geom_same(m0, self@, r as int, c as int);
                                lemma_geom_same(m0, self@, below.0 as int, below.1 as int);
                                assert(edit_step_stable(m0, v0, ridx as int, cidx as int));
                            }
                        }
                        continue;
                    }
                    let below2 = below2_opt.unwrap();
                    proof {
                        lemma_below_in_range(self@, below.0 as int, below.1 as int);
                        // the forward branch never reaches the final row
                        assert(below2.0 == r + 2);
                        if r as int == 0 {
                            assert(sheet_data_len(self@) > 0);
                            assert(r + 2 + 1 < m0.rows.len());
                        } else {
                            assert(r % 2 == 0 && r >= 2);
                            assert((c as int) < sheet_data_len(self@) - r + 2);
                            assert(c >= 2);
                            assert(r + 2 + 1 < m0.rows.len());
                        }
                    }
                    proof {
                        assert(m0.rows[r as int][c as int].ty == self@.rows[r as int][c as int].ty);
                        assert(m0.rows[r as int][c as int].is_checksum == self@.rows[r as int][c as int].is_checksum);
                        assert(spec_cell_below(m0, r as int, c as int) == spec_cell_below(
                            self@,
                            r as int,
                            c as int,
                        ));
                        assert(spec_cell_below(m0, below.0 as int, below.1 as int)
                            == spec_cell_below(self@, below.0 as int, below.1 as int));
                        assert(sheet_vals(self@)[r as int][c as int] == self@.rows[r as int][c as int].val);
                        assert(sheet_vals(self@)[below.0 as int][below.1 as int]
                            == self@.rows[below.0 as int][below.1 as int].val);
                        let w: (int, int, u8) = (
                            below2.0 as int,
                            below2.1 as int,
                            spec_add(fe_here@, self@.rows[below.0 as int][below.1 as int].val->0),
                        );
                        assert(rule_applies(m0, sheet_vals(self@), r as int, c as int, w));
                        assert(write_justified(m0, sheet_vals(self@), w));
                    }
                    let ghost s_pre = self@;
                    let wso = self.step_sum(
                        r,
                        c,
                        fe_here,
                        below2.0,
                        below2.1,
                        below.0,
                        below.1,
                        &mut ret,
                        &mut queue,
                        true,
                        Ghost(m0),
                        Ghost(v0),
                        Ghost(k),
                        Ghost(ws),
                        Ghost(ridx as int),
                        Ghost(cidx as int),
                        Ghost(ch_u),
                    );
                    proof {
                        let ghost ws_old = ws;
                        ws = wso@;
                        if ws.len() == 0 {
                            assert(ws_old.len() == 0);
                            assert(self@ == s_pre);
                            assert(sheet_vals(s_pre)[below2.0 as int][below2.1 as int] == s_pre.rows[below2.0 as int][below2.1 as int].val);
                            assert(sheet_vals(s_pre)[below.0 as int][below.1 as int] == s_pre.rows[below.0 as int][below.1 as int].val);
                            assert(sheet_vals(s_pre)[r as int][c as int] == s_pre.rows[r as int][c as int].val);
                            assert(edit_step_stable(m0, v0, ridx as int, cidx as int));
                        }
                    }
                },
                (CellType::Sum, true) | (CellType::ShareData, true) => {
                    // For checksum cells, we try to add to the cell above
                    let above_opt = self.cell_above(r, c);
                    if above_opt.is_none() {
                        proof {
                            if ws.len() == 0 {
                                assert(m0.rows[r as int][c as int].ty == self@.rows[r as int][c as int].ty);
                                assert(m0.rows[r as int][c as int].is_checksum == self@.rows[r as int][c as int].is_checksum);
                                lemma_geom_same(m0, self@, r as int, c as int);
                                assert(edit_step_stable(m0, v0, ridx as int, cidx as int));
                            }
                        }
                        continue;
                    }
                    let above = above_opt.unwrap();
                    let fe2_opt = self.cell_val(above.0, above.1);
                    if fe2_opt.is_none() {
                        proof {
                            if ws.len() == 0 {
                                assert(m0.rows[r as int][c as int].ty == self@.rows[r as int][c as int].ty);
                                assert(m0.rows[r as int][c as int].is_checksum == self@.rows[r as int][c as int].is_checksum);
                                lemma_geom_same(m0, self@, r as int, c as int);
                                assert(sheet_vals(self@)[above.0 as int][above.1 as int]
                                    == self@.rows[above.0 as int][above.1 as int].val);
                                assert(edit_step_stable(m0, v0, ridx as int, cidx as int));
                            }
                        }
                        continue;
                    }
                    let above2_opt = self.cell_above(above.0, above.1);
                    if above2_opt.is_none() {
                        proof {
                            if ws.len() == 0 {
                                assert(m0.rows[r as int][c as int].ty == self@.rows[r as int][c as int].ty);
                                assert(m0.rows[r as int][c as int].is_checksum == self@.rows[r as int][c as int].is_checksum);
                                lemma_geom_same(m0, self@, r as int, c as int);
                                lemma_geom_same(m0, self@, above.0 as int, above.1 as int);
                                assert(edit_step_stable(m0, v0, ridx as int, cidx as int));
                            }
                        }
                        continue;
                    }
                    let above2 = above2_opt.unwrap();
                    proof {
                        assert(above2.0 + 1 < m0.rows.len());
                        assert(m0.rows[r as int][c as int].ty == self@.rows[r as int][c as int].ty);
                        assert(m0.rows[r as int][c as int].is_checksum == self@.rows[r as int][c as int].is_checksum);
                        assert(m0.rows[r as int - 1].len() == self@.rows[r as int - 1].len());
                        assert(spec_cell_above(m0, r as int, c as int) == spec_cell_above(
                            self@,
                            r as int,
                            c as int,
                        ));
                        assert(m0.rows[above.0 as int - 1].len() == self@.rows[above.0 as int - 1].len());
                        assert(spec_cell_above(m0, above.0 as int, above.1 as int)
                            == spec_cell_above(self@, above.0 as int, above.1 as int));
                        assert(sheet_vals(self@)[r as int][c as int] == self@.rows[r as int][c as int].val);
                        assert(sheet_vals(self@)[above.0 as int][above.1 as int]
                            == self@.rows[above.0 as int][above.1 as int].val);
                        let w: (int, int, u8) = (
                            above2.0 as int,
                            above2.1 as int,
                            spec_add(fe_here@, self@.rows[above.0 as int][above.1 as int].val->0),
                        );
                        assert(rule_applies(m0, sheet_vals(self@), r as int, c as int, w));
                        assert(write_justified(m0, sheet_vals(self@), w));
                    }
                    let ghost s_pre = self@;
                    let wso = self.step_sum(
                        r,
                        c,
                        fe_here,
                        above2.0,
                        above2.1,
                        above.0,
                        above.1,
                        &mut ret,
                        &mut queue,
                        true,
                        Ghost(m0),
                        Ghost(v0),
                        Ghost(k),
                        Ghost(ws),
                        Ghost(ridx as int),
                        Ghost(cidx as int),
                        Ghost(ch_u),
                    );
                    proof {
                        let ghost ws_old = ws;
                        ws = wso@;
                        if ws.len() == 0 {
                            assert(ws_old.len() == 0);
                            assert(self@ == s_pre);
                            assert(sheet_vals(s_pre)[above2.0 as int][above2.1 as int] == s_pre.rows[above2.0 as int][above2.1 as int].val);
                            assert(sheet_vals(s_pre)[above.0 as int][above.1 as int] == s_pre.rows[above.0 as int][above.1 as int].val);
                            assert(sheet_vals(s_pre)[r as int][c as int] == s_pre.rows[r as int][c as int].val);
                            assert(edit_step_stable(m0, v0, ridx as int, cidx as int));
                        }
                    }
                },
                (CellType::Residue, false) => {
                    // Residue cells are very similar to sum cells
                    let above_opt = self.cell_above(r, c);
                    if above_opt.is_none() {
                        proof {
                            if ws.len() == 0 {
                                assert(m0.rows[r as int][c as int].ty == self@.rows[r as int][c as int].ty);
                                assert(m0.rows[r as int][c as int].is_checksum == self@.rows[r as int][c as int].is_checksum);
                                lemma_geom_same(m0, self@, r as int, c as int);
                                assert(edit_step_stable(m0, v0, ridx as int, cidx as int));
                            }
                        }
                        continue;
                    }
                    let above = above_opt.unwrap();
                    let fe2_opt = self.cell_val(above.0, above.1);
                    if fe2_opt.is_none() {
                        proof {
                            if ws.len() == 0 {
                                assert(m0.rows[r as int][c as int].ty == self@.rows[r as int][c as int].ty);
                                assert(m0.rows[r as int][c as int].is_checksum == self@.rows[r as int][c as int].is_checksum);
                                lemma_geom_same(m0, self@, r as int, c as int);
                                assert(sheet_vals(self@)[above.0 as int][above.1 as int]
                                    == self@.rows[above.0 as int][above.1 as int].val);
                                assert(edit_step_stable(m0, v0, ridx as int, cidx as int));
                            }
                        }
                        continue;
                    }
                    let below_opt = self.cell_below(r, c);
                    if below_opt.is_none() {
                        proof {
                            if ws.len() == 0 {
                                assert(m0.rows[r as int][c as int].ty == self@.rows[r as int][c as int].ty);
                                assert(m0.rows[r as int][c as int].is_checksum == self@.rows[r as int][c as int].is_checksum);
                                lemma_geom_same(m0, self@, r as int, c as int);
                                assert(edit_step_stable(m0, v0, ridx as int, cidx as int));
                            }
                        }
                        continue;
                    }
                    let below = below_opt.unwrap();
                    proof {
                        lemma_below_in_range(self@, r as int, c as int);
                        // a data-side residue cell is never in the last residue row
                        assert(r % 2 == 1);
                        assert(below.0 == r + 1);
                        assert((r as int) < sheet_n_rows(self@) - 2);
                        assert(below.0 + 1 < m0.rows.len());
                        assert(m0.rows[r as int][c as int].ty == self@.rows[r as int][c as int].ty);
                        assert(m0.rows[r as int][c as int].is_checksum == self@.rows[r as int][c as int].is_checksum);
                        assert(m0.rows[r as int - 1].len() == self@.rows[r as int - 1].len());
                        assert(spec_cell_above(m0, r as int, c as int) == spec_cell_above(
                            self@,
                            r as int,
                            c as int,
                        ));
                        assert(spec_cell_below(m0, r as int, c as int) == spec_cell_below(
                            self@,
                            r as int,
                            c as int,
                        ));
                        assert(sheet_vals(self@)[r as int][c as int] == self@.rows[r as int][c as int].val);
                        assert(sheet_vals(self@)[above.0 as int][above.1 as int]
                            == self@.rows[above.0 as int][above.1 as int].val);
                        let w: (int, int, u8) = (
                            below.0 as int,
                            below.1 as int,
                            spec_add(fe_here@, self@.rows[above.0 as int][above.1 as int].val->0),
                        );
                        assert(rule_applies(m0, sheet_vals(self@), r as int, c as int, w));
                        assert(write_justified(m0, sheet_vals(self@), w));
                    }
                    let ghost s_pre = self@;
                    let wso = self.step_sum(
                        r,
                        c,
                        fe_here,
                        below.0,
                        below.1,
                        above.0,
                        above.1,
                        &mut ret,
                        &mut queue,
                        true,
                        Ghost(m0),
                        Ghost(v0),
                        Ghost(k),
                        Ghost(ws),
                        Ghost(ridx as int),
                        Ghost(cidx as int),
                        Ghost(ch_u),
                    );
                    proof {
                        let ghost ws_old = ws;
                        ws = wso@;
                        if ws.len() == 0 {
                            assert(ws_old.len() == 0);
                            assert(self@ == s_pre);
                            assert(sheet_vals(s_pre)[below.0 as int][below.1 as int] == s_pre.rows[below.0 as int][below.1 as int].val);
                            assert(sheet_vals(s_pre)[above.0 as int][above.1 as int] == s_pre.rows[above.0 as int][above.1 as int].val);
                            assert(sheet_vals(s_pre)[r as int][c as int] == s_pre.rows[r as int][c as int].val);
                            assert(edit_step_stable(m0, v0, ridx as int, cidx as int));
                        }
                    }
                },
                (CellType::Residue, true) => {
                    let below_opt = self.cell_below(r, c);
                    if below_opt.is_none() {
                        proof {
                            if ws.len() == 0 {
                                assert(m0.rows[r as int][c as int].ty == self@.rows[r as int][c as int].ty);
                                assert(m0.rows[r as int][c as int].is_checksum == self@.rows[r as int][c as int].is_checksum);
                                lemma_geom_same(m0, self@, r as int, c as int);
                                assert(edit_step_stable(m0, v0, ridx as int, cidx as int));
                            }
                        }
                        continue;
                    }
                    let below = below_opt.unwrap();
                    proof {
                        lemma_below_in_range(self@, r as int, c as int);
                    }
                    let fe2_opt = self.cell_val(below.0, below.1);
                    if fe2_opt.is_none() {
                        proof {
                            if ws.len() == 0 {
                                assert(m0.rows[r as int][c as int].ty == self@.rows[r as int][c as int].ty);
                                assert(m0.rows[r as int][c as int].is_checksum == self@.rows[r as int][c as int].is_checksum);
                                lemma_geom_same(m0, self@, r as int, c as int);
                                assert(sheet_vals(self@)[below.0 as int][below.1 as int]
                                    == self@.rows[below.0 as int][below.1 as int].val);
                                assert(edit_step_stable(m0, v0, ridx as int, cidx as int));
                            }
                        }
                        continue;
                    }
                    let above_opt = self.cell_above(r, c);
                    if above_opt.is_none() {
                        proof {
                            if ws.len() == 0 {
                                assert(m0.rows[r as int][c as int].ty == self@.rows[r as int][c as int].ty);
                                assert(m0.rows[r as int][c as int].is_checksum == self@.rows[r as int][c as int].is_checksum);
                                lemma_geom_same(m0, self@, r as int, c as int);
                                assert(edit_step_stable(m0, v0, ridx as int, cidx as int));
                            }
                        }
                        continue;
                    }
                    let above = above_opt.unwrap();
                    proof {
                        assert(above.0 + 1 < m0.rows.len());
                        assert(m0.rows[r as int][c as int].ty == self@.rows[r as int][c as int].ty);
                        assert(m0.rows[r as int][c as int].is_checksum == self@.rows[r as int][c as int].is_checksum);
                        assert(m0.rows[r as int - 1].len() == self@.rows[r as int - 1].len());
                        assert(spec_cell_above(m0, r as int, c as int) == spec_cell_above(
                            self@,
                            r as int,
                            c as int,
                        ));
                        assert(spec_cell_below(m0, r as int, c as int) == spec_cell_below(
                            self@,
                            r as int,
                            c as int,
                        ));
                        assert(sheet_vals(self@)[r as int][c as int] == self@.rows[r as int][c as int].val);
                        assert(sheet_vals(self@)[below.0 as int][below.1 as int]
                            == self@.rows[below.0 as int][below.1 as int].val);
                        let w: (int, int, u8) = (
                            above.0 as int,
                            above.1 as int,
                            spec_add(fe_here@, self@.rows[below.0 as int][below.1 as int].val->0),
                        );
                        assert(rule_applies(m0, sheet_vals(self@), r as int, c as int, w));
                        assert(write_justified(m0, sheet_vals(self@), w));
                    }
                    let ghost s_pre = self@;
                    let wso = self.step_sum(
                        r,
                        c,
                        fe_here,
                        above.0,
                        above.1,
                        below.0,
                        below.1,
                        &mut ret,
                        &mut queue,
                        false,
                        Ghost(m0),
                        Ghost(v0),
                        Ghost(k),
                        Ghost(ws),
                        Ghost(ridx as int),
                        Ghost(cidx as int),
                        Ghost(ch_u),
                    );
                    proof {
                        let ghost ws_old = ws;
                        ws = wso@;
                        if ws.len() == 0 {
                            assert(ws_old.len() == 0);
                            assert(self@ == s_pre);
                            assert(sheet_vals(s_pre)[above.0 as int][above.1 as int] == s_pre.rows[above.0 as int][above.1 as int].val);
                            assert(sheet_vals(s_pre)[below.0 as int][below.1 as int] == s_pre.rows[below.0 as int][below.1 as int].val);
                            assert(sheet_vals(s_pre)[r as int][c as int] == s_pre.rows[r as int][c as int].val);
                            assert(edit_step_stable(m0, v0, ridx as int, cidx as int));
                        }
                    }
                },
                (CellType::GlobalResidue, _) => {
                    // never reached: global-residue cells are excluded as
                    // edit targets and no branch writes into the final row
                    proof {
                        assert(false);
                    }
                },
            }
        }
        proof {
            let wsx = ws;
            assert(m0 == old(self)@);
            assert(v0 == vals_after_edit(old(self)@, ridx as int, cidx as int, fe@));
            let kk: int = flash_count(ch, ch_u);
            assert(kk == k);
            assert(engine_writes_ok(
                old(self)@,
                vals_after_edit(old(self)@, ridx as int, cidx as int, fe@),
                ret@,
                kk,
                wsx,
            ));
            assert(sheet_vals(self@) =~~= apply_writes(
                vals_after_edit(old(self)@, ridx as int, cidx as int, fe@),
                wsx,
            ));
            if wsx.len() == 0 {
                assert(edit_step_stable(
                    old(self)@,
                    vals_after_edit(old(self)@, ridx as int, cidx as int, fe@),
                    ridx as int,
                    cidx as int,
                ));
            }
            assert(ret@.len() >= kk);
            assert(ch != ch_u ==> ret@[0].ty == crate::dom_action::ActionType::FlashSet
                && ret@[0].id@ == spec_cell_id(old(self)@.idx, ridx as nat, cidx as nat)
                && ret@[0].value == Some(ch_u));
            assert(exists|ws2: Seq<(int, int, u8)>|
                {
                    &&& #[trigger] engine_writes_ok(
                        old(self)@,
                        vals_after_edit(old(self)@, ridx as int, cidx as int, fe@),
                        ret@,
                        kk,
                        ws2,
                    )
                    &&& sheet_vals(self@) == apply_writes(
                        vals_after_edit(old(self)@, ridx as int, cidx as int, fe@),
                        ws2,
                    )
                    &&& (ws2.len() == 0 ==> edit_step_stable(
                        old(self)@,
                        vals_after_edit(old(self)@, ridx as int, cidx as int, fe@),
                        ridx as int,
                        cidx as int,
                    ))
                });
        }
        ret
    }


    /// Clear a cell in place (an empty edit).
    fn clear_cell(&mut self, ridx: usize, cidx: usize)
        requires
            sheet_wf(old(self)@),
            ridx < old(self)@.rows.len(),
            cidx < old(self)@.rows[ridx as int].len(),
        ensures
            sheet_wf(final(self)@),
            sheet_same_shape(old(self)@, final(self)@),
            sheet_vals(final(self)@) =~~= sheet_vals(old(self)@).update(
                ridx as int,
                sheet_vals(old(self)@)[ridx as int].update(cidx as int, None::<u8>),
            ),
    {
        let ghost pre = self@;
        self.set_cell_val(ridx, cidx, None);
        proof {
            lemma_vals_update(pre, self@, ridx as int, cidx as int, None);
            lemma_wf_after_write(pre, self@, ridx as int, cidx as int, None);
        }
    }

    /// The single flash-error action on a cell, for an edit that could not
    /// be used.
    fn flash_error_action(&self, ridx: usize, cidx: usize) -> (acts: Vec<
        crate::dom_action::Action,
    >)
        requires
            sheet_wf(self@),
            ridx < self@.rows.len(),
            cidx < self@.rows[ridx as int].len(),
        ensures
            acts@.len() == 1,
            acts@[0].ty == crate::dom_action::ActionType::FlashError,
            acts@[0].id@ == spec_cell_id(self@.idx, ridx as nat, cidx as nat),
            acts@[0].value is None,
    {
        let id = self.cell_id_of(ridx, cidx);
        let mut acts: Vec<crate::dom_action::Action> = Vec::new();
        acts.push(crate::dom_action::Action {
            ty: crate::dom_action::ActionType::FlashError,
            id,
            value: None,
        });
        acts
    }

    /// Handle a user-initiated change in one of the cells.
    ///
    /// An out-of-range position is an error. An empty edit clears the cell
    /// and reports nothing; dependent cells are left as they were. A
    /// non-parseable edit flashes the cell and changes nothing. A valid
    /// symbol is stored (flashing the upper-cased form when the input was
    /// lower case) and propagated: the returned `Set` actions are exactly
    /// the writes the propagation performed, in order, each to an existing
    /// cell it actually changed, each carrying the value a propagation rule
    /// computes from the sheet at that moment, and playing them onto the
    /// edited sheet gives the final sheet. An edit that emits no write left
    /// nothing derivable at the edited cell.
    #[verifier::rlimit(100)]
    pub fn handle_input_change(&mut self, ridx: usize, cidx: usize, val: &str) -> (r: Result<
        Vec<crate::dom_action::Action>,
        Error,
    >)
        requires
            sheet_wf(old(self)@),
            !(ridx + 1 == old(self)@.rows.len() && cidx < old(self)@.rows[ridx as int].len()
                && val@.len() == 1 && is_valid_symbol_char(val@[0])),
        ensures
            sheet_wf(final(self)@),
            sheet_same_shape(old(self)@, final(self)@),
            match r {
                Result::Err(Error::InvalidRow { row, n_rows }) => {
                    &&& ridx >= old(self)@.rows.len()
                    &&& row == ridx
                    &&& n_rows == old(self)@.rows.len()
                    &&& final(self)@ == old(self)@
                },
                Result::Err(Error::InvalidCell { row, cell, n_cells }) => {
                    &&& ridx < old(self)@.rows.len()
                    &&& cidx >= old(self)@.rows[ridx as int].len()
                    &&& row == ridx
                    &&& cell == cidx
                    &&& n_cells == old(self)@.rows[0].len()
                    &&& final(self)@ == old(self)@
                },
                Result::Ok(acts) => ok_edit_outcome(
                    old(self)@,
                    final(self)@,
                    acts@,
                    ridx as int,
                    cidx as int,
                    val@,
                ),
                _ => false,
            },
    {
        if ridx >= self.rows.len() {
            return Err(Error::InvalidRow { row: ridx, n_rows: self.rows.len() });
        }
        proof {
            assert(self@.rows[ridx as int].len() == self.rows@[ridx as int].cells@.len());
            assert(self@.rows[0].len() == self.rows@[0].cells@.len());
        }
        if cidx >= self.rows[ridx].cells.len() {
            return Err(Error::InvalidCell {
                row: ridx,
                cell: cidx,
                n_cells: self.rows[0].cells.len(),
            });
        }

        let n_chars = val.unicode_len();
        if n_chars == 0 {
            self.clear_cell(ridx, cidx);
            return Ok(Vec::new());
        }
        if n_chars > 1 {
            return Ok(self.flash_error_action(ridx, cidx));
        }
        let ch = val.get_char(0);
        let ch_u = upper_char(ch);
        let fe_opt = Fe::from_char(ch);
        if fe_opt.is_none() {
            return Ok(self.flash_error_action(ridx, cidx));
        }
        let fe = fe_opt.unwrap();
        proof {
            assert(fe_of_char(spec_upper(val@[0])) == Some(fe@));
        }
        let acts = self.apply_edit(ridx, cidx, fe, ch, ch_u);
        proof {
            assert(ch == val@[0]);
            assert(fe_of_char(spec_upper(ch))->0 == fe@);
            assert(exists|ws: Seq<(int, int, u8)>|
                {
                    &&& #[trigger] engine_writes_ok(
                        old(self)@,
                        vals_after_edit(
                            old(self)@,
                            ridx as int,
                            cidx as int,
                            fe_of_char(spec_upper(ch))->0,
                        ),
                        acts@,
                        flash_count(ch, spec_upper(ch)),
                        ws,
                    )
                    &&& sheet_vals(self@) == apply_writes(
                        vals_after_edit(
                            old(self)@,
                            ridx as int,
                            cidx as int,
                            fe_of_char(spec_upper(ch))->0,
                        ),
                        ws,
                    )
                    &&& (ws.len() == 0 ==> edit_step_stable(
                        old(self)@,
                        vals_after_edit(
                            old(self)@,
                            ridx as int,
                            cidx as int,
                            fe_of_char(spec_upper(ch))->0,
                        ),
                        ridx as int,
                        cidx as int,
                    ))
                });
            assert(valid_edit_outcome(old(self)@, self@, acts@, ridx as int, cidx as int, val@[0]));
            assert(ok_edit_outcome(old(self)@, self@, acts@, ridx as int, cidx as int, val@));
        }
        Ok(acts)
    }
}



impl CellType {
    /// The role name the host styles cells by.
    fn text(&self, is_checksum: bool) -> (r: &'static str)
        ensures
            r@ == cell_ty_text(*self, is_checksum),
    {
        match *self {
            CellType::ShareData => {
                if is_checksum {
                    "share_data_checksum"
                } else {
                    "share_data"
                }
            },
            CellType::Residue => "residue",
            CellType::Sum => {
                if is_checksum {
                    "sum_checksum"
                } else {
                    "sum"
                }
            },
            CellType::GlobalResidue => "global_residue",
        }
    }
}

/// The role name of a cell, lower-case, with the checksum flag folded in
/// for share-data and sum cells.
pub open spec fn cell_ty_text(ty: CellType, is_checksum: bool) -> Seq<char> {
    match ty {
        CellType::ShareData => if is_checksum {
            "share_data_checksum"@
        } else {
            "share_data"@
        },
        CellType::Residue => "residue"@,
        CellType::Sum => if is_checksum {
            "sum_checksum"@
        } else {
            "sum"@
        },
        CellType::GlobalResidue => "global_residue"@,
    }
}

/// The mathematical image of a projected DOM cell.
#[verifier::ext_equal]
pub struct DomCellModel {
    pub ty: Seq<char>,
    pub dom_id: Seq<char>,
    pub val: Option<char>,
    pub x: int,
    pub y: int,
}

/// Cell to construct in the DOM.
#[derive(Clone, Debug)]
pub struct DomCell {
    pub ty: &'static str,
    pub dom_id: String,
    pub val: Option<char>,
    pub x: usize,
    pub y: usize,
}

impl View for DomCell {
    type V = DomCellModel;

    closed spec fn view(&self) -> DomCellModel {
        DomCellModel {
            ty: self.ty@,
            dom_id: self.dom_id@,
            val: self.val,
            x: self.x as int,
            y: self.y as int,
        }
    }
}

/// The models of a vector of DOM cells.
pub open spec fn dom_vec_model(v: Seq<DomCell>) -> Seq<DomCellModel> {
    Seq::new(v.len(), |i: int| v[i]@)
}

/// The id of the fixed HRP cell `n` of the top row.
pub open spec fn spec_hrp_cell_id(n: nat) -> Seq<char> {
    seq!['c', 'e', 'l', 'l', '_', 'h', 'r', 'p', '_'] + crate::text::dec_rep(n)
}

/// The id of the operator-symbol cell of row `ny`.
pub open spec fn spec_symb_cell_id(ny: nat) -> Seq<char> {
    seq!['c', 'e', 'l', 'l', '_', 's', 'y', 'm', 'b', '_'] + crate::text::dec_rep(ny)
}

/// The x position where row `ny`'s cells begin, after the staircase shift.
pub open spec fn dom_offset(m: SheetModel, ny: int) -> int {
    if ny == 0 {
        m.hrp.len() as int
    } else {
        m.hrp.len() + 2 * ((ny - 1) / 2)
    }
}

/// The projection of row `ny`: for the top row the HRP characters and a
/// literal `1`, for every other row its operator symbol (`=` or `+`), then
/// the row's cells with their role names and grid coordinates.
pub open spec fn spec_dom_row(m: SheetModel, ny: int) -> Seq<DomCellModel> {
    let head: Seq<DomCellModel> = if ny == 0 {
        Seq::new(
            (m.hrp.len() + 1) as nat,
            |n: int|
                DomCellModel {
                    ty: "fixed_hrp"@,
                    dom_id: spec_hrp_cell_id(n as nat),
                    val: Some(
                        if n < m.hrp.len() {
                            m.hrp[n]
                        } else {
                            '1'
                        },
                    ),
                    x: n,
                    y: 0,
                },
        )
    } else {
        seq![
            DomCellModel {
                ty: "symbol"@,
                dom_id: spec_symb_cell_id(ny as nat),
                val: Some(
                    if ny % 2 == 0 {
                        '='
                    } else {
                        '+'
                    },
                ),
                x: dom_offset(m, ny),
                y: ny,
            },
        ]
    };
    head + Seq::new(
        m.rows[ny].len() as nat,
        |nx: int|
            DomCellModel {
                ty: cell_ty_text(m.rows[ny][nx].ty, m.rows[ny][nx].is_checksum),
                dom_id: m.rows[ny][nx].id,
                val: match m.rows[ny][nx].val {
                    Some(v) => Some(fe_char(v)),
                    None => None,
                },
                x: dom_offset(m, ny) + 1 + nx,
                y: ny,
            },
    )
}

/// The projection of the first `upto` rows.
pub open spec fn spec_dom_prefix(m: SheetModel, upto: int) -> Seq<DomCellModel>
    decreases upto,
{
    if upto <= 0 {
        Seq::empty()
    } else {
        spec_dom_prefix(m, upto - 1) + spec_dom_row(m, upto - 1)
    }
}

/// The full projection of a sheet, row by row.
pub open spec fn spec_dom_cells(m: SheetModel) -> Seq<DomCellModel> {
    spec_dom_prefix(m, m.rows.len() as int)
}

/// Build the id string of a fixed HRP cell.
fn hrp_cell_id_string(n: usize) -> (r: String)
    ensures
        r@ =~= spec_hrp_cell_id(n as nat),
{
    let mut st = String::new();
    push_char(&mut st, 'c');
    push_char(&mut st, 'e');
    push_char(&mut st, 'l');
    push_char(&mut st, 'l');
    push_char(&mut st, '_');
    push_char(&mut st, 'h');
    push_char(&mut st, 'r');
    push_char(&mut st, 'p');
    push_char(&mut st, '_');
    crate::text::push_usize(&mut st, n);
    st
}

/// Build the id string of an operator-symbol cell.
fn symb_cell_id_string(ny: usize) -> (r: String)
    ensures
        r@ =~= spec_symb_cell_id(ny as nat),
{
    let mut st = String::new();
    push_char(&mut st, 'c');
    push_char(&mut st, 'e');
    push_char(&mut st, 'l');
    push_char(&mut st, 'l');
    push_char(&mut st, '_');
    push_char(&mut st, 's');
    push_char(&mut st, 'y');
    push_char(&mut st, 'm');
    push_char(&mut st, 'b');
    push_char(&mut st, '_');
    crate::text::push_usize(&mut st, ny);
    st
}

impl Worksheet {
    /// Constructs a giant array of cells with information to populate the
    /// DOM with.
    #[verifier::rlimit(100)]
    pub fn get_dom_cells(&self) -> (r: Vec<DomCell>)
        requires
            sheet_wf(self@),
        ensures
            dom_vec_model(r@) =~~= spec_dom_cells(self@),
    {
        let mut ret: Vec<DomCell> = Vec::new();
        let h = self.hrp_len();
        let mut ny: usize = 0;
        let mut offset: usize = h;
        while ny < self.rows.len()
            invariant
                ny <= self@.rows.len(),
                sheet_wf(self@),
                h == self@.hrp.len(),
                ny == 0 ==> offset == h,
                ny >= 1 ==> offset as int == dom_offset(self@, ny as int - 1),
                offset as int <= self@.hrp.len() + self@.rows.len(),
                dom_vec_model(ret@) =~~= spec_dom_prefix(self@, ny as int),
            decreases self@.rows.len() - ny,
        {
            let ghost pre_row = dom_vec_model(ret@);
            if ny == 0 {
                let st = self.hrp.as_str();
                proof {
                    vstd::string::is_ascii_spec_bytes(st);
                }
                let mut n: usize = 0;
                while n < h
                    invariant
                        n <= h,
                        sheet_wf(self@),
                        h == self@.hrp.len(),
                        st@ == self@.hrp,
                        st.is_ascii(),
                        dom_vec_model(ret@) =~~= pre_row + spec_dom_row(self@, 0).take(n as int),
                    decreases h - n,
                {
                    let ch = st.get_char(n);
                    let id = hrp_cell_id_string(n);
                    let ghost pre_ret = ret@;
                    let cell = DomCell { ty: "fixed_hrp", dom_id: id, val: Some(ch), x: n, y: 0 };
                    ret.push(cell);
                    n = n + 1;
                    proof {
                        let j = n as int - 1;
                        let row = spec_dom_row(self@, 0);
                        assert(dom_vec_model(ret@) =~~= dom_vec_model(pre_ret).push(cell@));
                        assert(row[j] == DomCellModel {
                            ty: "fixed_hrp"@,
                            dom_id: spec_hrp_cell_id(j as nat),
                            val: Some(self@.hrp[j]),
                            x: j,
                            y: 0,
                        });
                        assert(cell@ =~~= row[j]);
                        assert(row.take(j + 1) =~~= row.take(j).push(row[j]));
                        assert(dom_vec_model(ret@) =~~= pre_row + row.take(n as int));
                    }
                }
                let id = hrp_cell_id_string(h);
                ret.push(DomCell { ty: "fixed_hrp", dom_id: id, val: Some('1'), x: h, y: 0 });
                proof {
                    assert(dom_vec_model(ret@) =~~= pre_row + spec_dom_row(self@, 0).take(
                        h + 1,
                    ));
                }
            } else {
                if ny > 2 && ny % 2 == 1 {
                    offset = offset + 2;
                }
                proof {
                    assert(offset as int == dom_offset(self@, ny as int));
                }
                let id = symb_cell_id_string(ny);
                let symb = if ny % 2 == 0 {
                    '='
                } else {
                    '+'
                };
                ret.push(DomCell { ty: "symbol", dom_id: id, val: Some(symb), x: offset, y: ny });
                proof {
                    assert(dom_vec_model(ret@) =~~= pre_row + spec_dom_row(self@, ny as int).take(
                        1,
                    ));
                }
            }
            let ghost head_len: int = if ny == 0 {
                h as int + 1
            } else {
                1int
            };
            let n_cells = self.row_len(ny);
            let mut nx: usize = 0;
            while nx < n_cells
                invariant
                    nx <= n_cells,
                    ny < self@.rows.len(),
                    n_cells == self@.rows[ny as int].len(),
                    sheet_wf(self@),
                    h == self@.hrp.len(),
                    offset == dom_offset(self@, ny as int),
                    head_len == (if ny == 0 {
                        h as int + 1
                    } else {
                        1int
                    }),
                    offset + 1 + n_cells <= usize::MAX,
                    dom_vec_model(ret@) =~~= pre_row + spec_dom_row(self@, ny as int).take(
                        head_len + nx,
                    ),
                decreases n_cells - nx,
            {
                let role = self.cell_role(ny, nx);
                let ty_text = role.0.text(role.1);
                let id = self.cell_id_of(ny, nx);
                let v = self.cell_val(ny, nx);
                let vc = match v {
                    Some(fe) => {
                        proof {
                            assert(self@.rows[ny as int][nx as int].val == Some(fe@));
                            assert(fe@ < 32);
                        }
                        Some(fe.to_char())
                    },
                    None => None,
                };
                let ghost pre_ret = ret@;
                let cell = DomCell { ty: ty_text, dom_id: id, val: vc, x: offset + 1 + nx, y: ny };
                ret.push(cell);
                nx = nx + 1;
                proof {
                    let j = nx as int - 1;
                    let row = spec_dom_row(self@, ny as int);
                    assert(dom_vec_model(ret@) =~~= dom_vec_model(pre_ret).push(cell@));
                    assert(row[head_len + j] == DomCellModel {
                        ty: cell_ty_text(
                            self@.rows[ny as int][j].ty,
                            self@.rows[ny as int][j].is_checksum,
                        ),
                        dom_id: self@.rows[ny as int][j].id,
                        val: match self@.rows[ny as int][j].val {
                            Some(vv) => Some(fe_char(vv)),
                            None => None,
                        },
                        x: dom_offset(self@, ny as int) + 1 + j,
                        y: ny as int,
                    });
                    assert(cell@ =~~= row[head_len + j]);
                    assert(row.take(head_len + j + 1) =~~= row.take(head_len + j).push(
                        row[head_len + j],
                    ));
                    assert(dom_vec_model(ret@) =~~= pre_row + row.take(head_len + nx));
                }
            }
            ny = ny + 1;
            proof {
                assert(spec_dom_row(self@, ny as int - 1).take(head_len + n_cells)
                    =~~= spec_dom_row(self@, ny as int - 1));
                assert(dom_vec_model(ret@) =~~= spec_dom_prefix(self@, ny as int));
            }
        }
        ret
    }
}


/// Playing a write sequence onto a grid keeps its shape and keeps every
/// filled cell filled: writes only ever store values.
pub proof fn lemma_writes_keep_filled(
    v: Seq<Seq<Option<u8>>>,
    ws: Seq<(int, int, u8)>,
    r: int,
    c: int,
)
    requires
        0 <= r < v.len(),
        0 <= c < v[r].len(),
        v[r][c] is Some,
    ensures
        apply_writes(v, ws).len() == v.len(),
        forall|rr: int| 0 <= rr < v.len() ==> (#[trigger] apply_writes(v, ws)[rr]).len()
            == v[rr].len(),
        apply_writes(v, ws)[r][c] is Some,
    decreases ws.len(),
{
    if ws.len() > 0 {
        lemma_writes_keep_filled(v, ws.drop_last(), r, c);
    }
}

/// An accepted single-symbol edit never blanks a cell: every cell that held
/// a value before the edit still holds one afterwards. Only an explicit
/// empty edit can clear a cell.
pub proof fn lemma_edit_keeps_filled(
    m0: SheetModel,
    m1: SheetModel,
    acts: Seq<crate::dom_action::Action>,
    ridx: int,
    cidx: int,
    ch: char,
    r: int,
    c: int,
)
    requires
        valid_edit_outcome(m0, m1, acts, ridx, cidx, ch),
        sheet_same_shape(m0, m1),
        0 <= ridx < m0.rows.len(),
        0 <= cidx < m0.rows[ridx].len(),
        0 <= r < m0.rows.len(),
        0 <= c < m0.rows[r].len(),
        m0.rows[r][c].val is Some,
    ensures
        m1.rows[r][c].val is Some,
{
    let fev = fe_of_char(spec_upper(ch))->0;
    let v0 = vals_after_edit(m0, ridx, cidx, fev);
    let ws = choose|ws: Seq<(int, int, u8)>|
        {
            &&& #[trigger] engine_writes_ok(m0, v0, acts, flash_count(ch, spec_upper(ch)), ws)
            &&& sheet_vals(m1) == apply_writes(v0, ws)
        };
    assert(sheet_vals(m0).len() == m0.rows.len());
    assert(sheet_vals(m0)[r].len() == m0.rows[r].len());
    assert(v0[r][c] is Some);
    lemma_writes_keep_filled(v0, ws, r, c);
    assert(sheet_vals(m1)[r][c] == m1.rows[r][c].val);
}

} // verus!
