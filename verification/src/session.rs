//! Checksumming sessions
//!
//! A session is a trivial container of worksheets keyed by index, plus the
//! HRP, threshold, size and checksum kind the next worksheet is built with.
//! It routes cell edits by their DOM id (`inp_<share>_<row>_<col>`) and
//! serializes itself to a single string for host-side persistence.

use vstd::prelude::*;

use crate::checksum_worksheet::{
    is_valid_symbol_char, ok_edit_outcome, row_matches, sheet_wf, spec_dom_cells, upper_seq,
    CreateMode, DomCell, SheetModel, Worksheet,
};
use crate::share_str::{spec_header, spec_sheet_chars};
use crate::dom_action::Action;
use crate::error::Error;
use crate::fe::Checksum;
use crate::text::{digits_end, is_digit, parse_cell_name, seg_val};
use vstd::string::StrSliceExecFns;
use vstd::string::StringSliceAdditionalSpecFns;
use vstd::string::StringExecFns;
use vstd::utf8::is_ascii_chars;

verus! {

/// The mathematical image of a session.
pub struct SessionModel {
    pub hrp: Seq<char>,
    pub threshold: nat,
    pub size: nat,
    pub checksum: Checksum,
    pub shares: Seq<SheetModel>,
}

/// The entire checksumming session.
pub struct Session {
    hrp: String,
    pub threshold: usize,
    pub size: usize,
    pub checksum: Checksum,
    shares: Vec<Worksheet>,
}

impl View for Session {
    type V = SessionModel;

    closed spec fn view(&self) -> SessionModel {
        SessionModel {
            hrp: self.hrp@,
            threshold: self.threshold as nat,
            size: self.size as nat,
            checksum: self.checksum,
            shares: Seq::new(self.shares@.len(), |i: int| self.shares@[i]@),
        }
    }
}

/// Every share of the session is a well-formed worksheet that knows its own
/// index.
pub open spec fn session_wf(m: SessionModel) -> bool {
    forall|i: int|
        0 <= i < m.shares.len() ==> sheet_wf(#[trigger] m.shares[i]) && m.shares[i].idx == i
}

/// Reading more digits never shrinks the value of a segment.
proof fn lemma_seg_val_mono(s: Seq<char>, from: int, i: int, e: int)
    requires
        0 <= from <= i <= e <= s.len(),
    ensures
        seg_val(s, from, i) <= seg_val(s, from, e),
    decreases e - i,
{
    if i < e {
        lemma_seg_val_mono(s, from, i, e - 1);
    }
}

/// Scan a decimal number starting at `from`: its digits, their value, and
/// where they end; `None` when there are no digits or the value does not
/// fit a machine word.
fn scan_number(s: &str, from: usize) -> (r: Option<(usize, usize)>)
    requires
        s@.len() <= usize::MAX,
        from <= s@.len(),
    ensures
        match r {
            Some(ve) => {
                &&& digits_end(s@, from as int) == ve.1
                &&& from < ve.1 <= s@.len()
                &&& seg_val(s@, from as int, ve.1 as int) == ve.0
            },
            None => digits_end(s@, from as int) == from || seg_val(
                s@,
                from as int,
                digits_end(s@, from as int),
            ) > usize::MAX,
        },
{
    let n = s.unicode_len();
    let mut i = from;
    let mut v: usize = 0;
    let mut overflow = false;
    while i < n
        invariant_except_break
            !overflow,
        invariant
            from <= i <= n,
            n == s@.len(),
            digits_end(s@, from as int) == digits_end(s@, i as int),
            v == seg_val(s@, from as int, i as int),
        ensures
            from <= i <= n,
            n == s@.len(),
            !overflow ==> digits_end(s@, from as int) == i && v == seg_val(s@, from as int, i as int)
                && from <= i,
            overflow ==> seg_val(s@, from as int, digits_end(s@, from as int)) > usize::MAX,
        decreases n - i,
    {
        let c = s.get_char(i);
        if !('0' <= c && c <= '9') {
            proof {
                assert(digits_end(s@, i as int) == i);
            }
            break;
        }
        let d = (c as u32 - 48) as usize;
        if v > (usize::MAX - d) / 10 {
            overflow = true;
            proof {
                assert(is_digit(s@[i as int]));
                assert(seg_val(s@, from as int, i + 1) == v * 10 + (c as int - 48));
                assert(seg_val(s@, from as int, i + 1) > usize::MAX);
                lemma_digits_end_ge(s@, i as int);
                lemma_digits_end_le(s@, i as int);
                assert(i + 1 <= digits_end(s@, i as int));
                lemma_seg_val_mono(s@, from as int, i + 1, digits_end(s@, from as int));
            }
            break;
        }
        v = v * 10 + d;
        i = i + 1;
        proof {
            assert(seg_val(s@, from as int, i as int) == seg_val(s@, from as int, i - 1) * 10 + (
            c as int - 48));
        }
    }
    if overflow {
        None
    } else if i == from {
        None
    } else {
        Some((v, i))
    }
}

/// A position holding a digit lies strictly before the end of its digit run.
proof fn lemma_digits_end_ge(s: Seq<char>, i: int)
    requires
        0 <= i < s.len(),
        is_digit(s[i]),
    ensures
        digits_end(s, i) >= i + 1,
{
    lemma_digits_end_le(s, i + 1);
}

/// The end of a digit run lies within the sequence.
proof fn lemma_digits_end_le(s: Seq<char>, i: int)
    requires
        0 <= i <= s.len(),
    ensures
        i <= digits_end(s, i) <= s.len(),
    decreases s.len() - i,
{
    if i < s.len() && is_digit(s[i]) {
        lemma_digits_end_le(s, i + 1);
    }
}

/// Helper function to translate a cell ID into a shareidx/row/cell index
/// tuple, against the `inp_<share>_<row>_<col>` grammar.
pub fn cell_from_name(s: &str) -> (r: Result<[usize; 3], Error>)
    requires
        s@.len() <= usize::MAX,
    ensures
        match r {
            Result::Ok(t) => parse_cell_name(s@) == Some(
                ((t[0] as nat), (t[1] as nat), (t[2] as nat)),
            ),
            Result::Err(e) => parse_cell_name(s@) is None && (e matches Error::UnknownCell {
                id,
                reason,
            } && id@ == s@),
        },
{
    let n = s.unicode_len();
    if n < 4 || s.get_char(0) != 'i' || s.get_char(1) != 'n' || s.get_char(2) != 'p'
        || s.get_char(3) != '_' {
        return Err(Error::UnknownCell { id: s.to_owned(), reason: "no inp_ prefix" });
    }
    let r1 = scan_number(s, 4);
    if r1.is_none() {
        return Err(Error::UnknownCell { id: s.to_owned(), reason: "bad number" });
    }
    let (v1, e1) = r1.unwrap();
    if e1 >= n || s.get_char(e1) != '_' {
        return Err(
            Error::UnknownCell {
                id: s.to_owned(),
                reason: if e1 >= n {
                    "missing number"
                } else {
                    "bad number"
                },
            },
        );
    }
    let r2 = scan_number(s, e1 + 1);
    if r2.is_none() {
        return Err(Error::UnknownCell { id: s.to_owned(), reason: "bad number" });
    }
    let (v2, e2) = r2.unwrap();
    if e2 >= n || s.get_char(e2) != '_' {
        return Err(
            Error::UnknownCell {
                id: s.to_owned(),
                reason: if e2 >= n {
                    "missing number"
                } else {
                    "bad number"
                },
            },
        );
    }
    let r3 = scan_number(s, e2 + 1);
    if r3.is_none() {
        return Err(Error::UnknownCell { id: s.to_owned(), reason: "bad number" });
    }
    let (v3, e3) = r3.unwrap();
    if e3 != n {
        return Err(Error::UnknownCell { id: s.to_owned(), reason: "extra numbers" });
    }
    Ok([v1, v2, v3])
}


/// `0` for bech32, `1` for codex32, as the persistence string stores it.
pub open spec fn checksum_flag(c: Checksum) -> nat {
    match c {
        Checksum::Bech32 => 0,
        Checksum::Codex32 => 1,
    }
}

/// The header of the persistence string:
/// `<size>_<cksumFlag>_<threshold>_<hrpLen>_`.
pub open spec fn spec_session_head(m: SessionModel) -> Seq<char> {
    crate::text::dec_rep(m.size) + seq!['_'] + crate::text::dec_rep(checksum_flag(m.checksum))
        + seq!['_'] + crate::text::dec_rep(m.threshold) + seq!['_'] + crate::text::dec_rep(
        m.hrp.len(),
    ) + seq!['_'] + m.hrp
}

/// The serializations of the first `upto` shares, each preceded by `_`.
pub open spec fn spec_shares_str(m: SessionModel, upto: int) -> Seq<char>
    decreases upto,
{
    if upto <= 0 {
        Seq::empty()
    } else {
        spec_shares_str(m, upto - 1) + seq!['_'] + spec_sheet_chars(m.shares[upto - 1])
    }
}

/// The whole persistence string of a session.
pub open spec fn spec_session_str(m: SessionModel) -> Seq<char> {
    spec_session_head(m) + spec_shares_str(m, m.shares.len() as int)
}

/// The four numeric header fields of a persistence string and the position
/// where the HRP begins: `None` when the header does not have four decimal
/// fields separated by underscores, with values that fit machine words and
/// a checksum flag of `0` or `1`.
pub open spec fn parse_session_head(s: Seq<char>) -> Option<(nat, nat, nat, nat, int)> {
    let e1 = digits_end(s, 0);
    if e1 == 0 || e1 >= s.len() || s[e1] != '_' {
        None
    } else {
        let e2 = digits_end(s, e1 + 1);
        if e2 == e1 + 1 || e2 >= s.len() || s[e2] != '_' {
            None
        } else {
            let e3 = digits_end(s, e2 + 1);
            if e3 == e2 + 1 || e3 >= s.len() || s[e3] != '_' {
                None
            } else {
                let e4 = digits_end(s, e3 + 1);
                if e4 == e3 + 1 || e4 >= s.len() || s[e4] != '_' {
                    None
                } else {
                    let size = seg_val(s, 0, e1);
                    let flag = seg_val(s, e1 + 1, e2);
                    let th = seg_val(s, e2 + 1, e3);
                    let hl = seg_val(s, e3 + 1, e4);
                    if size <= usize::MAX && flag <= 1 && th <= usize::MAX && hl <= usize::MAX
                        && e4 + 1 + hl <= s.len() {
                        Some((size, flag, th, hl, e4 + 1))
                    } else {
                        None
                    }
                }
            }
        }
    }
}


/// Decimal representations consist of digits and are never empty.
proof fn lemma_dec_rep_digits(n: nat)
    ensures
        crate::text::dec_rep(n).len() >= 1,
        forall|i: int|
            0 <= i < crate::text::dec_rep(n).len() ==> is_digit(
                #[trigger] crate::text::dec_rep(n)[i],
            ) && '\0' <= crate::text::dec_rep(n)[i] <= '\u{7f}',
    decreases n,
{
    if n < 10 {
        assert(is_digit(crate::text::digit_char(n as int)));
    } else {
        lemma_dec_rep_digits(n / 10);
        assert(is_digit(crate::text::digit_char((n % 10) as int)));
        assert forall|i: int|
            0 <= i < crate::text::dec_rep(n).len() implies is_digit(
            #[trigger] crate::text::dec_rep(n)[i]) && '\0' <= crate::text::dec_rep(n)[i]
            <= '\u{7f}' by {
            if i < crate::text::dec_rep(n / 10).len() {
                assert(crate::text::dec_rep(n)[i] == crate::text::dec_rep(n / 10)[i]);
            } else {
                assert(crate::text::dec_rep(n)[i] == crate::text::digit_char((n % 10) as int));
            }
        }
    }
}

/// A run of digits followed by a non-digit (or the end) is where the digit
/// scan stops.
proof fn lemma_digits_run(s: Seq<char>, i: int, e: int)
    requires
        0 <= i <= e <= s.len(),
        forall|j: int| i <= j < e ==> is_digit(#[trigger] s[j]),
        e < s.len() ==> !is_digit(s[e]),
    ensures
        digits_end(s, i) == e,
    decreases e - i,
{
    if i < e {
        lemma_digits_run(s, i + 1, e);
    }
}

/// Reading a decimal representation back gives the number.
proof fn lemma_seg_val_at(s: Seq<char>, i: int, n: nat)
    requires
        0 <= i,
        i + crate::text::dec_rep(n).len() <= s.len(),
        s.subrange(i, i + crate::text::dec_rep(n).len()) == crate::text::dec_rep(n),
    ensures
        seg_val(s, i, i + crate::text::dec_rep(n).len()) == n,
    decreases n,
{
    let l = crate::text::dec_rep(n).len() as int;
    if n < 10 {
        assert(s[i] == crate::text::dec_rep(n)[0]);
        assert(s[i] == crate::text::digit_char(n as int));
        assert(seg_val(s, i, i + 1) == seg_val(s, i, i) * 10 + (n as int));
    } else {
        let lp = crate::text::dec_rep(n / 10).len() as int;
        assert(crate::text::dec_rep(n) == crate::text::dec_rep(n / 10).push(
            crate::text::digit_char((n % 10) as int),
        ));
        assert(s.subrange(i, i + lp) =~= crate::text::dec_rep(n / 10));
        lemma_seg_val_at(s, i, n / 10);
        assert(s[i + l - 1] == crate::text::dec_rep(n)[l - 1]);
        assert(s[i + l - 1] == crate::text::digit_char((n % 10) as int));
        assert(is_digit(s[i + l - 1])) by {
            lemma_dec_rep_digits(n);
        }
        assert(seg_val(s, i, i + l) == seg_val(s, i, i + l - 1) * 10 + (n % 10));
        assert(n == (n / 10) * 10 + n % 10);
    }
}

/// A run without separators followed by one (or the end) is where the
/// separator scan stops.
proof fn lemma_sep_run(s: Seq<char>, i: int, e: int)
    requires
        0 <= i <= e <= s.len(),
        forall|j: int| i <= j < e ==> (#[trigger] s[j]) != '_',
        e < s.len() ==> s[e] == '_',
    ensures
        sep_end(s, i) == e,
    decreases e - i,
{
    if i < e {
        lemma_sep_run(s, i + 1, e);
    }
}

/// Every character of a share serialization is a symbol or the blank: never
/// a separator, always ASCII, and acceptable to the decoder.
proof fn lemma_sheet_chars_symbols(m: SheetModel, u: int)
    requires
        sheet_wf(m),
        0 <= u <= m.rows.len(),
    ensures
        forall|j: int|
            0 <= j < crate::share_str::spec_sheet_chars_prefix(m, u).len() ==> {
                let c = #[trigger] crate::share_str::spec_sheet_chars_prefix(m, u)[j];
                &&& c != '_'
                &&& '\0' <= c <= '\u{7f}'
                &&& (c == '-' || crate::fe::fe_of_char(crate::fe::spec_upper(c)) is Some)
            },
    decreases u,
{
    if u > 0 {
        lemma_sheet_chars_symbols(m, u - 1);
        assert(m.rows[u - 1].len() == crate::checksum_worksheet::spec_row_len(m, u - 1));
        assert forall|c: int|
            0 <= c < crate::share_str::spec_row_chars(m, u - 1).len() implies {
            let ch = #[trigger] crate::share_str::spec_row_chars(m, u - 1)[c];
            &&& ch != '_'
            &&& '\0' <= ch <= '\u{7f}'
            &&& (ch == '-' || crate::fe::fe_of_char(crate::fe::spec_upper(ch)) is Some)
        } by {
            if m.rows[u - 1][c].val is Some {
                assert(m.rows[u - 1][c].val->0 < 32);
                crate::fe::lemma_symbol_char_facts(m.rows[u - 1][c].val->0);
            }
        }
        assert forall|j: int|
            0 <= j < crate::share_str::spec_sheet_chars_prefix(m, u).len() implies {
            let ch = #[trigger] crate::share_str::spec_sheet_chars_prefix(m, u)[j];
            &&& ch != '_'
            &&& '\0' <= ch <= '\u{7f}'
            &&& (ch == '-' || crate::fe::fe_of_char(crate::fe::spec_upper(ch)) is Some)
        } by {
            let pl = crate::share_str::spec_sheet_chars_prefix(m, u - 1).len() as int;
            if j < pl {
                assert(crate::share_str::spec_sheet_chars_prefix(m, u)[j]
                    == crate::share_str::spec_sheet_chars_prefix(m, u - 1)[j]);
            } else {
                assert(crate::share_str::spec_sheet_chars_prefix(m, u)[j]
                    == crate::share_str::spec_row_chars(m, u - 1)[j - pl]);
            }
        }
    }
}


/// ASCII survives concatenation.
proof fn lemma_ascii_concat(a: Seq<char>, b: Seq<char>)
    requires
        is_ascii_chars(a),
        is_ascii_chars(b),
    ensures
        is_ascii_chars(a + b),
{
    assert forall|i: int| 0 <= i < (a + b).len() implies '\0' <= #[trigger] (a + b)[i]
        <= '\u{7f}' by {
        if i < a.len() {
            assert((a + b)[i] == a[i]);
        } else {
            assert((a + b)[i] == b[i - a.len()]);
        }
    }
}

/// Longer share-string prefixes extend shorter ones.
proof fn lemma_shares_prefix_stable(m: SessionModel, u: int, w: int)
    requires
        0 <= u <= w <= m.shares.len(),
    ensures
        spec_shares_str(m, u).len() <= spec_shares_str(m, w).len(),
        forall|t: int|
            0 <= t < spec_shares_str(m, u).len() ==> #[trigger] spec_shares_str(m, w)[t]
                == spec_shares_str(m, u)[t],
    decreases w - u,
{
    if u < w {
        lemma_shares_prefix_stable(m, u, w - 1);
    }
}

/// The share payloads of a session string, read from the end of the first
/// `u` serialized shares, are exactly the remaining shares' serializations.
proof fn lemma_payload_section(m: SessionModel, u: int)
    requires
        session_wf(m),
        0 <= u <= m.shares.len(),
    ensures
        share_payloads(
            spec_session_str(m),
            spec_session_head(m).len() + spec_shares_str(m, u).len() as int,
        ) =~= Seq::new(
            (m.shares.len() - u) as nat,
            |i: int| spec_sheet_chars(m.shares[u + i]),
        ),
    decreases m.shares.len() - u,
{
    let str = spec_session_str(m);
    let base = spec_session_head(m).len() as int;
    let pos = base + spec_shares_str(m, u).len();
    lemma_shares_prefix_stable(m, u, m.shares.len() as int);
    if u == m.shares.len() {
        assert(pos == str.len());
        assert(share_payloads(str, pos) =~= Seq::<Seq<char>>::empty());
    } else {
        let chars_u = spec_sheet_chars(m.shares[u]);
        assert(sheet_wf(m.shares[u]));
        lemma_sheet_chars_symbols(m.shares[u], m.shares[u].rows.len() as int);
        assert(spec_shares_str(m, u + 1) =~= spec_shares_str(m, u) + seq!['_'] + chars_u);
        lemma_shares_prefix_stable(m, u + 1, m.shares.len() as int);
        let pos2 = base + spec_shares_str(m, u + 1).len();
        assert(pos2 == pos + 1 + chars_u.len());
        assert(pos2 <= str.len());
        assert(str[pos] == '_') by {
            assert(str[pos] == spec_shares_str(m, m.shares.len() as int)[pos - base]);
            assert(spec_shares_str(m, m.shares.len() as int)[pos - base] == spec_shares_str(
                m,
                u + 1,
            )[pos - base]);
            assert(spec_shares_str(m, u + 1)[pos - base] == '_');
        }
        assert forall|j: int| 0 <= j < chars_u.len() implies #[trigger] str[pos + 1 + j]
            == chars_u[j] by {
            assert(str[pos + 1 + j] == spec_shares_str(m, m.shares.len() as int)[pos + 1 + j
                - base]);
            assert(spec_shares_str(m, m.shares.len() as int)[pos + 1 + j - base]
                == spec_shares_str(m, u + 1)[pos + 1 + j - base]);
            assert(spec_shares_str(m, u + 1)[pos + 1 + j - base] == chars_u[j]);
        }
        assert forall|j: int| pos + 1 <= j < pos2 implies (#[trigger] str[j]) != '_' by {
            assert(str[j] == chars_u[j - pos - 1]);
        }
        if pos2 < str.len() {
            assert(str[pos2] == '_') by {
                assert(u + 1 < m.shares.len());
                assert(spec_shares_str(m, u + 2) =~= spec_shares_str(m, u + 1) + seq!['_']
                    + spec_sheet_chars(m.shares[u + 1]));
                lemma_shares_prefix_stable(m, u + 2, m.shares.len() as int);
                assert(str[pos2] == spec_shares_str(m, m.shares.len() as int)[pos2 - base]);
                assert(spec_shares_str(m, m.shares.len() as int)[pos2 - base] == spec_shares_str(
                    m,
                    u + 2,
                )[pos2 - base]);
                assert(spec_shares_str(m, u + 2)[pos2 - base] == '_');
            }
        }
        lemma_sep_run(str, pos + 1, pos2);
        assert(str.subrange(pos + 1, pos2) =~= chars_u);
        assert(share_payloads(str, pos) =~= seq![chars_u] + share_payloads(str, pos2));
        lemma_payload_section(m, u + 1);
        assert(share_payloads(str, pos) =~= Seq::new(
            (m.shares.len() - u) as nat,
            |i: int| spec_sheet_chars(m.shares[u + i]),
        ));
    }
}


/// The share serializations of a session are ASCII.
proof fn lemma_shares_str_ascii(m: SessionModel, u: int)
    requires
        session_wf(m),
        0 <= u <= m.shares.len(),
    ensures
        is_ascii_chars(spec_shares_str(m, u)),
    decreases u,
{
    if u > 0 {
        lemma_shares_str_ascii(m, u - 1);
        lemma_sheet_chars_symbols(m.shares[u - 1], m.shares[u - 1].rows.len() as int);
        assert(is_ascii_chars(spec_sheet_chars(m.shares[u - 1])));
        assert(is_ascii_chars(seq!['_']));
        lemma_ascii_concat(spec_shares_str(m, u - 1), seq!['_']);
        lemma_ascii_concat(spec_shares_str(m, u - 1) + seq!['_'], spec_sheet_chars(m.shares[u - 1]));
        assert(spec_shares_str(m, u) =~= spec_shares_str(m, u - 1) + seq!['_']
            + spec_sheet_chars(m.shares[u - 1]));
    }
}

/// Serializing a session and reading the string back restores it: the
/// string a session prints is well formed, its header carries the session's
/// size, checksum flag, threshold and HRP, and its payloads are exactly the
/// shares' serializations — so `update_from_local_storage_str` on it
/// succeeds and rebuilds the same fields and share contents. This needs the
/// shares to agree with the session's current HRP length, size and checksum
/// kind: a share built before `set_hrp` or a size change serializes under a
/// header it no longer matches, and decoding then fails closed.
pub proof fn lemma_storage_roundtrip(m: SessionModel)
    requires
        session_wf(m),
        is_ascii_chars(m.hrp),
        m.size <= usize::MAX / 64,
        m.threshold <= usize::MAX,
        m.hrp.len() <= usize::MAX,
        forall|i: int|
            0 <= i < m.shares.len() ==> (#[trigger] m.shares[i]).hrp.len() == m.hrp.len()
                && m.shares[i].size == m.size && m.shares[i].checksum == m.checksum,
    ensures
        parse_session_ok(spec_session_str(m)),
        parse_session_head(spec_session_str(m)) is Some,
        ({
            let h = parse_session_head(spec_session_str(m))->0;
            &&& h.0 == m.size
            &&& h.1 == checksum_flag(m.checksum)
            &&& h.2 == m.threshold
            &&& h.3 == m.hrp.len()
            &&& spec_session_str(m).subrange(h.4, h.4 + h.3) =~= m.hrp
            &&& share_payloads(spec_session_str(m), h.4 + h.3) =~= Seq::new(
                m.shares.len(),
                |i: int| spec_sheet_chars(m.shares[i]),
            )
        }),
{
    let str = spec_session_str(m);
    let hd = spec_session_head(m);
    let d0 = crate::text::dec_rep(m.size);
    let d1 = crate::text::dec_rep(checksum_flag(m.checksum));
    let d2 = crate::text::dec_rep(m.threshold);
    let d3 = crate::text::dec_rep(m.hrp.len());
    lemma_dec_rep_digits(m.size);
    lemma_dec_rep_digits(checksum_flag(m.checksum));
    lemma_dec_rep_digits(m.threshold);
    lemma_dec_rep_digits(m.hrp.len());
    let e1 = d0.len() as int;
    let b1 = e1 + 1;
    let e2 = b1 + d1.len();
    let b2 = e2 + 1;
    let e3 = b2 + d2.len();
    let b3 = e3 + 1;
    let e4 = b3 + d3.len();
    let p = e4 + 1;
    let start = p + m.hrp.len();
    assert(hd =~= d0 + seq!['_'] + d1 + seq!['_'] + d2 + seq!['_'] + d3 + seq!['_'] + m.hrp);
    assert(hd.len() == start);
    assert(str =~= hd + spec_shares_str(m, m.shares.len() as int));
    assert(str.len() >= start);
    // the four decimal fields sit where the scanner looks for them
    assert(str.subrange(0, e1) =~= d0);
    assert(str[e1] == '_');
    assert(str.subrange(b1, e2) =~= d1);
    assert(str[e2] == '_');
    assert(str.subrange(b2, e3) =~= d2);
    assert(str[e3] == '_');
    assert(str.subrange(b3, e4) =~= d3);
    assert(str[e4] == '_');
    assert(str.subrange(p, start) =~= m.hrp);
    assert forall|j: int| 0 <= j < e1 implies is_digit(#[trigger] str[j]) by {
        assert(str[j] == str.subrange(0, e1)[j]);
    }
    lemma_digits_run(str, 0, e1);
    assert forall|j: int| b1 <= j < e2 implies is_digit(#[trigger] str[j]) by {
        assert(str[j] == str.subrange(b1, e2)[j - b1]);
    }
    lemma_digits_run(str, b1, e2);
    assert forall|j: int| b2 <= j < e3 implies is_digit(#[trigger] str[j]) by {
        assert(str[j] == str.subrange(b2, e3)[j - b2]);
    }
    lemma_digits_run(str, b2, e3);
    assert forall|j: int| b3 <= j < e4 implies is_digit(#[trigger] str[j]) by {
        assert(str[j] == str.subrange(b3, e4)[j - b3]);
    }
    lemma_digits_run(str, b3, e4);
    lemma_seg_val_at(str, 0, m.size);
    lemma_seg_val_at(str, b1, checksum_flag(m.checksum));
    lemma_seg_val_at(str, b2, m.threshold);
    lemma_seg_val_at(str, b3, m.hrp.len());
    assert(parse_session_head(str) == Some(
        (m.size, checksum_flag(m.checksum), m.threshold, m.hrp.len(), p),
    ));
    // the payload section
    assert(spec_shares_str(m, 0) =~= Seq::<char>::empty());
    lemma_payload_section(m, 0);
    assert(share_payloads(str, start) =~= Seq::new(
        m.shares.len(),
        |i: int| spec_sheet_chars(m.shares[i]),
    ));
    // the whole string is ASCII
    lemma_shares_str_ascii(m, m.shares.len() as int);
    assert(is_ascii_chars(seq!['_']));
    lemma_ascii_concat(d0, seq!['_']);
    lemma_ascii_concat(d0 + seq!['_'], d1);
    lemma_ascii_concat(d0 + seq!['_'] + d1, seq!['_']);
    lemma_ascii_concat(d0 + seq!['_'] + d1 + seq!['_'], d2);
    lemma_ascii_concat(d0 + seq!['_'] + d1 + seq!['_'] + d2, seq!['_']);
    lemma_ascii_concat(d0 + seq!['_'] + d1 + seq!['_'] + d2 + seq!['_'], d3);
    lemma_ascii_concat(d0 + seq!['_'] + d1 + seq!['_'] + d2 + seq!['_'] + d3, seq!['_']);
    lemma_ascii_concat(d0 + seq!['_'] + d1 + seq!['_'] + d2 + seq!['_'] + d3 + seq!['_'], m.hrp);
    assert(is_ascii_chars(hd));
    lemma_ascii_concat(hd, spec_shares_str(m, m.shares.len() as int));
    assert(is_ascii_chars(str));
    // the structure and payload conditions of a well-formed string
    if m.shares.len() == 0 {
        assert(start == str.len());
    } else {
        assert(str[start] == '_') by {
            assert(spec_shares_str(m, 1) =~= spec_shares_str(m, 0) + seq!['_']
                + spec_sheet_chars(m.shares[0]));
            lemma_shares_prefix_stable(m, 1, m.shares.len() as int);
            assert(str[start] == spec_shares_str(m, m.shares.len() as int)[0]);
            assert(spec_shares_str(m, m.shares.len() as int)[0] == spec_shares_str(m, 1)[0]);
        }
        assert(sheet_wf(m.shares[0]));
        assert(m.size > m.hrp.len() + m.checksum.spec_len());
        assert((m.size - m.hrp.len() - m.checksum.spec_len() - 1) % 2 == 0);
        assert(flag_checksum(checksum_flag(m.checksum)) == m.checksum);
        let h = parse_session_head(str)->0;
        let ps = share_payloads(str, start);
        assert forall|i: int| 0 <= i < ps.len() implies payload_ok(h, #[trigger] ps[i]) by {
            assert(ps[i] =~= spec_sheet_chars(m.shares[i]));
            lemma_sheet_chars_count(m.shares[i]);
            lemma_sheet_chars_symbols(m.shares[i], m.shares[i].rows.len() as int);
        }
    }
    assert(parse_session_ok(str));
}

impl Session {
    /// A fresh session with no shares.
    pub fn new(hrp: String, threshold: usize, size: usize, checksum: Checksum) -> (r: Session)
        ensures
            r@.hrp == hrp@,
            r@.threshold == threshold,
            r@.size == size,
            r@.checksum == checksum,
            r@.shares.len() == 0,
            session_wf(r@),
    {
        let r = Session { hrp, threshold, size, checksum, shares: Vec::new() };
        proof {
            assert(r@.shares =~= Seq::<SheetModel>::empty());
        }
        r
    }

    /// The session's HRP.
    pub fn hrp(&self) -> (r: String)
        ensures
            r@ == self@.hrp,
    {
        self.hrp.clone()
    }

    /// Replace the session's HRP (used for worksheets built afterwards).
    pub fn set_hrp(&mut self, s: String)
        ensures
            final(self)@ == (SessionModel { hrp: s@, ..old(self)@ }),
    {
        self.hrp = s;
    }

    /// How many shares the session holds.
    pub fn n_shares(&self) -> (n: usize)
        ensures
            n == self@.shares.len(),
    {
        self.shares.len()
    }

    /// Adds a share to a session: a fresh create-mode worksheet built from
    /// the session's current HRP, size and checksum kind, keyed by the next
    /// free index.
    pub fn new_share(&mut self) -> (r: Result<usize, Error>)
        requires
            session_wf(old(self)@),
            is_ascii_chars(old(self)@.hrp),
            old(self)@.hrp.len() + 16 <= usize::MAX,
            old(self)@.size <= usize::MAX / 64,
        ensures
            session_wf(final(self)@),
            final(self)@.hrp == old(self)@.hrp,
            final(self)@.threshold == old(self)@.threshold,
            final(self)@.size == old(self)@.size,
            final(self)@.checksum == old(self)@.checksum,
            match r {
                Result::Ok(idx) => {
                    &&& idx == old(self)@.shares.len()
                    &&& final(self)@.shares.len() == old(self)@.shares.len() + 1
                    &&& forall|i: int|
                        0 <= i < old(self)@.shares.len() ==> final(self)@.shares[i] == old(
                            self,
                        )@.shares[i]
                    &&& ({
                        let m = final(self)@.shares.last();
                        &&& sheet_wf(m)
                        &&& m.hrp =~= upper_seq(old(self)@.hrp)
                        &&& m.size == old(self)@.size
                        &&& m.checksum == old(self)@.checksum
                        &&& m.mode == CreateMode::Create
                        &&& m.idx == idx
                        &&& forall|rr: int| 0 <= rr < m.rows.len() ==> #[trigger] row_matches(m, rr)
                    })
                },
                Result::Err(e) => final(self)@ == old(self)@ && match e {
                    Error::TooShort { minimum, actual } => {
                        &&& old(self)@.size < old(self)@.hrp.len()
                            + old(self)@.checksum.spec_len()
                        &&& minimum == old(self)@.hrp.len() + old(self)@.checksum.spec_len()
                        &&& actual == old(self)@.size
                    },
                    Error::OddLength { data_len } => {
                        &&& old(self)@.size >= old(self)@.hrp.len()
                            + old(self)@.checksum.spec_len()
                        &&& if old(self)@.size == old(self)@.hrp.len()
                            + old(self)@.checksum.spec_len() {
                            data_len == usize::MAX
                        } else {
                            &&& (old(self)@.size - old(self)@.hrp.len()
                                - old(self)@.checksum.spec_len() - 1) % 2 == 1
                            &&& data_len == old(self)@.size - old(self)@.hrp.len()
                                - old(self)@.checksum.spec_len() - 1
                        }
                    },
                    _ => false,
                },
            },
    {
        let idx = self.shares.len();
        let st = self.hrp.as_str();
        let r = Worksheet::new(st, CreateMode::Create, self.size, self.checksum, idx);
        match r {
            Ok(w) => {
                let ghost pre = self@;
                self.shares.push(w);
                proof {
                    assert(self@.shares =~= pre.shares.push(w@));
                }
                Ok(idx)
            },
            Err(e) => Err(e),
        }
    }

    /// Gets the list of cells to build a checksum worksheet from.
    pub fn get_checksum_worksheet_cells(&self, idx: usize) -> (r: Result<Vec<DomCell>, Error>)
        requires
            session_wf(self@),
        ensures
            match r {
                Result::Ok(v) => idx < self@.shares.len()
                    && crate::checksum_worksheet::dom_vec_model(v@) =~~= spec_dom_cells(
                    self@.shares[idx as int],
                ),
                Result::Err(Error::InvalidShare { idx: i, n_shares }) => idx
                    >= self@.shares.len() && i == idx && n_shares == self@.shares.len(),
                _ => false,
            },
    {
        if idx >= self.shares.len() {
            return Err(Error::InvalidShare { idx, n_shares: self.shares.len() });
        }
        proof {
            assert(sheet_wf(self@.shares[idx as int]));
            assert(self.shares@[idx as int]@ == self@.shares[idx as int]);
        }
        Ok(self.shares[idx].get_dom_cells())
    }

    /// Gets the header string of a checksum worksheet.
    pub fn get_checksum_worksheet_header_str(&self, idx: usize) -> (r: Result<String, Error>)
        requires
            session_wf(self@),
        ensures
            match r {
                Result::Ok(st) => idx < self@.shares.len() && st@ =~= spec_header(
                    self@.shares[idx as int],
                ),
                Result::Err(Error::InvalidShare { idx: i, n_shares }) => idx
                    >= self@.shares.len() && i == idx && n_shares == self@.shares.len(),
                _ => false,
            },
    {
        if idx >= self.shares.len() {
            return Err(Error::InvalidShare { idx, n_shares: self.shares.len() });
        }
        proof {
            assert(sheet_wf(self@.shares[idx as int]));
            assert(self.shares@[idx as int]@ == self@.shares[idx as int]);
        }
        Ok(self.shares[idx].header_str())
    }

    /// The number of rows of a share's worksheet, when the share exists.
    pub fn share_n_rows(&self, idx: usize) -> (r: Option<usize>)
        ensures
            match r {
                Some(n) => idx < self@.shares.len() && n == self@.shares[idx as int].rows.len(),
                None => idx >= self@.shares.len(),
            },
    {
        if idx >= self.shares.len() {
            return None;
        }
        proof {
            assert(self.shares@[idx as int]@ == self@.shares[idx as int]);
        }
        Some(self.shares[idx].n_rows())
    }

    /// The number of cells of row `ridx` of a share's worksheet, when both
    /// exist.
    pub fn share_row_len(&self, idx: usize, ridx: usize) -> (r: Option<usize>)
        ensures
            match r {
                Some(n) => idx < self@.shares.len() && ridx < self@.shares[idx as int].rows.len()
                    && n == self@.shares[idx as int].rows[ridx as int].len(),
                None => idx >= self@.shares.len() || (idx < self@.shares.len() && ridx
                    >= self@.shares[idx as int].rows.len()),
            },
    {
        if idx >= self.shares.len() {
            return None;
        }
        proof {
            assert(self.shares@[idx as int]@ == self@.shares[idx as int]);
        }
        if ridx >= self.shares[idx].n_rows() {
            return None;
        }
        Some(self.shares[idx].row_len(ridx))
    }

    /// Extracts the share index from an input ID.
    pub fn get_idx_of(&self, id: &str) -> (r: Result<usize, Error>)
        requires
            id@.len() <= usize::MAX,
        ensures
            match r {
                Result::Ok(i) => parse_cell_name(id@) is Some && (parse_cell_name(id@)->0).0 == i,
                Result::Err(e) => parse_cell_name(id@) is None,
            },
    {
        match cell_from_name(id) {
            Ok(t) => Ok(t[0]),
            Err(e) => Err(e),
        }
    }
}


impl Session {
    /// Responds to a user update of a cell by updating the state of the
    /// sheet the id names.
    ///
    /// Returns a list of updated cells for the host to paint.
    pub fn handle_input_change(&mut self, id: &str, val: &str) -> (r: Result<Vec<Action>, Error>)
        requires
            session_wf(old(self)@),
            id@.len() <= usize::MAX,
            (parse_cell_name(id@) matches Some(t) && t.0 < old(self)@.shares.len() && t.1 + 1
                == old(self)@.shares[t.0 as int].rows.len() && t.2 < old(self)@.shares[t.0 as int].rows[t.1 as int].len())
                ==> !(val@.len() == 1 && is_valid_symbol_char(val@[0])),
        ensures
            session_wf(final(self)@),
            final(self)@.hrp == old(self)@.hrp,
            final(self)@.threshold == old(self)@.threshold,
            final(self)@.size == old(self)@.size,
            final(self)@.checksum == old(self)@.checksum,
            final(self)@.shares.len() == old(self)@.shares.len(),
            match r {
                Result::Ok(acts) => {
                    &&& parse_cell_name(id@) is Some
                    &&& ({
                        let t = parse_cell_name(id@)->0;
                        &&& t.0 < old(self)@.shares.len()
                        &&& ok_edit_outcome(
                            old(self)@.shares[t.0 as int],
                            final(self)@.shares[t.0 as int],
                            acts@,
                            t.1 as int,
                            t.2 as int,
                            val@,
                        )
                        &&& forall|i: int|
                            (0 <= i < old(self)@.shares.len() && i != t.0) ==> #[trigger] final(self)@.shares[i]
                                == old(self)@.shares[i]
                    })
                },
                Result::Err(Error::UnknownCell { id: i2, reason }) => parse_cell_name(id@) is None
                    && final(self)@ == old(self)@ && i2@ == id@,
                Result::Err(Error::InvalidShare { idx, n_shares }) => {
                    &&& parse_cell_name(id@) is Some
                    &&& idx == (parse_cell_name(id@)->0).0
                    &&& idx >= old(self)@.shares.len()
                    &&& n_shares == old(self)@.shares.len()
                    &&& final(self)@ == old(self)@
                },
                Result::Err(Error::InvalidRow { row, n_rows }) => {
                    &&& parse_cell_name(id@) is Some
                    &&& ({
                        let t = parse_cell_name(id@)->0;
                        &&& t.0 < old(self)@.shares.len()
                        &&& t.1 >= old(self)@.shares[t.0 as int].rows.len()
                        &&& row == t.1
                        &&& n_rows == old(self)@.shares[t.0 as int].rows.len()
                    })
                    &&& final(self)@ == old(self)@
                },
                Result::Err(Error::InvalidCell { row, cell, n_cells }) => {
                    &&& parse_cell_name(id@) is Some
                    &&& ({
                        let t = parse_cell_name(id@)->0;
                        &&& t.0 < old(self)@.shares.len()
                        &&& t.1 < old(self)@.shares[t.0 as int].rows.len()
                        &&& t.2 >= old(self)@.shares[t.0 as int].rows[t.1 as int].len()
                        &&& row == t.1
                        &&& cell == t.2
                    })
                    &&& final(self)@ == old(self)@
                },
                _ => false,
            },
    {
        let t = match cell_from_name(id) {
            Ok(t) => t,
            Err(e) => {
                return Err(e);
            },
        };
        let share_idx = t[0];
        if share_idx >= self.shares.len() {
            return Err(Error::InvalidShare { idx: share_idx, n_shares: self.shares.len() });
        }
        proof {
            assert(sheet_wf(self@.shares[share_idx as int]));
            assert(self.shares@[share_idx as int]@ == self@.shares[share_idx as int]);
        }
        let ghost pre = self@;
        let ghost w0 = self.shares@[share_idx as int]@;
        let res = self.shares[share_idx].handle_input_change(t[1], t[2], val);
        proof {
            assert(self@.shares[share_idx as int] == self.shares@[share_idx as int]@);
            assert(w0 == pre.shares[share_idx as int]);
            match res {
                Result::Ok(ref acts) => {
                    assert(ok_edit_outcome(
                        pre.shares[share_idx as int],
                        self@.shares[share_idx as int],
                        acts@,
                        t[1] as int,
                        t[2] as int,
                        val@,
                    ));
                },
                Result::Err(_) => {
                    assert(self.shares@[share_idx as int]@ == w0);
                    assert(self@.shares =~~= pre.shares);
                    assert(self@ == pre);
                },
            }
            assert forall|i: int| 0 <= i < pre.shares.len() && i != share_idx implies self@.shares[i]
                == pre.shares[i] by {
                assert(self.shares@[i]@ == self@.shares[i]);
            }
            assert forall|i: int|
                0 <= i < self@.shares.len() implies sheet_wf(#[trigger] self@.shares[i])
                && self@.shares[i].idx == i by {
                if i == share_idx {
                    assert(sheet_wf(self@.shares[i]));
                } else {
                    assert(self@.shares[i] == pre.shares[i]);
                }
            }
        }
        res
    }

    /// Outputs a serialization of the session which can be read back from
    /// host-side local storage.
    pub fn local_storage_str(&self) -> (r: String)
        requires
            session_wf(self@),
            is_ascii_chars(self@.hrp),
            self@.hrp.len() <= usize::MAX,
        ensures
            r@ =~= spec_session_str(self@),
    {
        let mut ret = String::new();
        crate::text::push_usize(&mut ret, self.size);
        crate::text::push_char(&mut ret, '_');
        match self.checksum {
            Checksum::Bech32 => crate::text::push_usize(&mut ret, 0),
            Checksum::Codex32 => crate::text::push_usize(&mut ret, 1),
        }
        crate::text::push_char(&mut ret, '_');
        crate::text::push_usize(&mut ret, self.threshold);
        crate::text::push_char(&mut ret, '_');
        let hl = self.hrp_char_len();
        crate::text::push_usize(&mut ret, hl);
        crate::text::push_char(&mut ret, '_');
        ret.append(self.hrp.as_str());
        proof {
            assert(ret@ =~= spec_session_head(self@));
            assert(ret@ =~= spec_session_head(self@) + spec_shares_str(self@, 0));
        }
        let mut i: usize = 0;
        while i < self.shares.len()
            invariant
                i <= self@.shares.len(),
                session_wf(self@),
                ret@ =~= spec_session_head(self@) + spec_shares_str(self@, i as int),
            decreases self@.shares.len() - i,
        {
            crate::text::push_char(&mut ret, '_');
            proof {
                assert(sheet_wf(self@.shares[i as int]));
                assert(self.shares@[i as int]@ == self@.shares[i as int]);
            }
            self.shares[i].cells_into_str(&mut ret);
            i = i + 1;
            proof {
                assert(ret@ =~= spec_session_head(self@) + spec_shares_str(self@, i as int));
            }
        }
        ret
    }

    /// The HRP length in characters.
    fn hrp_char_len(&self) -> (n: usize)
        requires
            is_ascii_chars(self@.hrp),
            self@.hrp.len() <= usize::MAX,
        ensures
            n == self@.hrp.len(),
    {
        let st = self.hrp.as_str();
        proof {
            vstd::string::is_ascii_spec_bytes(st);
            assert(vstd::string::is_ascii(st));
            assert(st.spec_bytes() =~= Seq::new(st@.len(), |i: int| st@[i] as u8));
        }
        st.len()
    }
}



/// The first position at or after `i` that holds a separator (or the end).
pub open spec fn sep_end(s: Seq<char>, i: int) -> int
    recommends
        0 <= i <= s.len(),
    decreases s.len() - i,
{
    if i >= s.len() || s[i] == '_' {
        i
    } else {
        sep_end(s, i + 1)
    }
}

/// The separator scan stays within the string.
pub proof fn lemma_sep_end_bounds(s: Seq<char>, i: int)
    requires
        0 <= i <= s.len(),
    ensures
        i <= sep_end(s, i) <= s.len(),
        sep_end(s, i) < s.len() ==> s[sep_end(s, i)] == '_',
    decreases s.len() - i,
{
    if i < s.len() && s[i] != '_' {
        lemma_sep_end_bounds(s, i + 1);
    }
}

/// The `_`-separated share payloads of the tail of a persistence string:
/// each underscore at or after `from` opens one payload running to the next
/// underscore or the end.
pub open spec fn share_payloads(s: Seq<char>, from: int) -> Seq<Seq<char>>
    recommends
        0 <= from <= s.len(),
    decreases s.len() - from,
    when 0 <= from <= s.len()
    via share_payloads_decreases
{
    if from >= s.len() {
        Seq::empty()
    } else {
        seq![s.subrange(from + 1, sep_end(s, from + 1))] + share_payloads(s, sep_end(s, from + 1))
    }
}

#[via_fn]
proof fn share_payloads_decreases(s: Seq<char>, from: int) {
    if from < s.len() {
        lemma_sep_end_bounds(s, from + 1);
    }
}

/// The number of cells a worksheet built from these parameters has: the sum
/// of its row lengths.
pub open spec fn count_rows_upto(hl: int, size: int, ck: Checksum, u: int) -> int
    decreases u,
{
    if u <= 0 {
        0
    } else {
        count_rows_upto(hl, size, ck, u - 1) + row_len_of(hl, size, ck, u - 1)
    }
}

/// The number of rows a worksheet built from these parameters has.
pub open spec fn n_rows_of(hl: int, size: int, ck: Checksum) -> int {
    2 * ((size - hl - ck.spec_len() - 1) / 2 + 1) + 1
}

/// The length of row `r` of a worksheet built from these parameters.
pub open spec fn row_len_of(hl: int, size: int, ck: Checksum, r: int) -> int {
    if r == n_rows_of(hl, size, ck) - 1 {
        ck.spec_len() as int
    } else if r >= 2 && r % 2 == 0 {
        ck.spec_len() + 2int
    } else {
        ck.spec_len() as int
    }
}

/// The cell count of a worksheet built from these parameters.
pub open spec fn sheet_cell_count(hl: int, size: int, ck: Checksum) -> int {
    count_rows_upto(hl, size, ck, n_rows_of(hl, size, ck))
}

/// A well-formed sheet's serialization has exactly the cell count its
/// parameters dictate.
pub proof fn lemma_sheet_chars_count(m: SheetModel)
    requires
        sheet_wf(m),
    ensures
        spec_sheet_chars(m).len() == sheet_cell_count(
            m.hrp.len() as int,
            m.size as int,
            m.checksum,
        ),
{
    lemma_prefix_counts(m, m.rows.len() as int);
}

/// Serialization prefixes and the parameter-level count agree row by row.
proof fn lemma_prefix_counts(m: SheetModel, u: int)
    requires
        sheet_wf(m),
        0 <= u <= m.rows.len(),
    ensures
        crate::share_str::spec_sheet_chars_prefix(m, u).len() == count_rows_upto(
            m.hrp.len() as int,
            m.size as int,
            m.checksum,
            u,
        ),
    decreases u,
{
    if u > 0 {
        lemma_prefix_counts(m, u - 1);
        assert(m.rows[u - 1].len() == crate::checksum_worksheet::spec_row_len(m, u - 1));
        assert(crate::checksum_worksheet::sheet_n_rows(m) == n_rows_of(
            m.hrp.len() as int,
            m.size as int,
            m.checksum,
        ));
        assert(crate::checksum_worksheet::spec_row_len(m, u - 1) == row_len_of(
            m.hrp.len() as int,
            m.size as int,
            m.checksum,
            u - 1,
        ));
    }
}

/// The checksum kind a persistence flag names.
pub open spec fn flag_checksum(flag: nat) -> Checksum {
    if flag == 0 {
        Checksum::Bech32
    } else {
        Checksum::Codex32
    }
}

/// One share payload is acceptable to a fresh worksheet built from the
/// parsed header: the right number of characters, each a symbol of either
/// case or a blank.
pub open spec fn payload_ok(h: (nat, nat, nat, nat, int), p: Seq<char>) -> bool {
    &&& p.len() == sheet_cell_count(h.3 as int, h.0 as int, flag_checksum(h.1))
    &&& forall|i: int|
        0 <= i < p.len() ==> (#[trigger] p[i]) == '-' || crate::fe::fe_of_char(
            crate::fe::spec_upper(p[i]),
        ) is Some
}

/// A whole persistence string is well formed: ASCII, a four-field numeric
/// header with a checksum flag of 0 or 1 and a size the machine can build,
/// the HRP in place, and — when share payloads follow — a buildable sheet
/// shape and every payload acceptable to it.
pub open spec fn parse_session_ok(s: Seq<char>) -> bool {
    &&& is_ascii_chars(s)
    &&& parse_session_head(s) is Some
    &&& ({
        let h = parse_session_head(s)->0;
        let start = h.4 + h.3;
        &&& h.0 <= usize::MAX / 64
        &&& (start == s.len() || s[start] == '_')
        &&& (share_payloads(s, start).len() == 0 || ({
            &&& h.0 > h.3 + flag_checksum(h.1).spec_len()
            &&& (h.0 - h.3 - flag_checksum(h.1).spec_len() - 1) % 2 == 0
            &&& forall|i: int|
                0 <= i < share_payloads(s, start).len() ==> payload_ok(
                    h,
                    #[trigger] share_payloads(s, start)[i],
                )
        }))
    })
}

impl Session {
    /// Update the session from a serialization read from host-side local
    /// storage: `<size>_<cksumFlag>_<threshold>_<hrpLen>_<hrp>` followed by
    /// one `_`-prefixed share serialization per share. Succeeds exactly on
    /// well-formed strings (`parse_session_ok`): then the four header
    /// fields and the HRP are taken over and one share is appended per
    /// payload, holding that payload's cells; otherwise the session keeps
    /// its invariant and the error names the first malformed piece, with
    /// share payloads replayed through fresh worksheets so their errors
    /// surface unchanged.
    pub fn update_from_local_storage_str(&mut self, s: &str) -> (r: Result<(), Error>)
        requires
            session_wf(old(self)@),
            s@.len() <= usize::MAX - 16,
        ensures
            session_wf(final(self)@),
            match r {
                Result::Ok(()) => {
                    &&& parse_session_ok(s@)
                    &&& ({
                        let h = parse_session_head(s@)->0;
                        let ps = share_payloads(s@, h.4 + h.3);
                        &&& final(self)@.size == h.0
                        &&& final(self)@.checksum == flag_checksum(h.1)
                        &&& final(self)@.threshold == h.2
                        &&& final(self)@.hrp =~= s@.subrange(h.4, h.4 + h.3)
                        &&& final(self)@.shares.len() == old(self)@.shares.len() + ps.len()
                        &&& forall|j: int|
                            0 <= j < old(self)@.shares.len() ==> #[trigger] final(self)@.shares[j]
                                == old(self)@.shares[j]
                        &&& forall|j: int|
                            0 <= j < ps.len() ==> spec_sheet_chars(
                                #[trigger] final(self)@.shares[old(self)@.shares.len() + j],
                            ) =~= crate::share_str::spec_normalised(ps[j])
                    })
                },
                Result::Err(e) => !parse_session_ok(s@) && {
                    ||| e matches Error::BadSessionStr { .. }
                    ||| e matches Error::TooShort { .. }
                    ||| e matches Error::OddLength { .. }
                    ||| e matches Error::BadShareDataLen { .. }
                    ||| e matches Error::BadBech32Char { .. }
                },
            },
    {
        if !s.is_ascii() {
            return Err(Error::BadSessionStr { reason: "not ASCII" });
        }
        let n = s.unicode_len();
        let r1 = scan_number(s, 0);
        if r1.is_none() {
            return Err(Error::BadSessionStr { reason: "missing size" });
        }
        let (size, e1) = r1.unwrap();
        if e1 >= n || s.get_char(e1) != '_' {
            return Err(Error::BadSessionStr { reason: "missing checksum" });
        }
        let r2 = scan_number(s, e1 + 1);
        if r2.is_none() {
            return Err(Error::BadSessionStr { reason: "missing checksum" });
        }
        let (flag, e2) = r2.unwrap();
        if e2 >= n || s.get_char(e2) != '_' {
            return Err(Error::BadSessionStr { reason: "missing threshold" });
        }
        let checksum = match flag {
            0 => Checksum::Bech32,
            1 => Checksum::Codex32,
            _ => {
                return Err(Error::BadSessionStr { reason: "bad checksum value" });
            },
        };
        let r3 = scan_number(s, e2 + 1);
        if r3.is_none() {
            return Err(Error::BadSessionStr { reason: "missing threshold" });
        }
        let (threshold, e3) = r3.unwrap();
        if e3 >= n || s.get_char(e3) != '_' {
            return Err(Error::BadSessionStr { reason: "missing hrp len" });
        }
        let r4 = scan_number(s, e3 + 1);
        if r4.is_none() {
            return Err(Error::BadSessionStr { reason: "missing hrp len" });
        }
        let (hrp_len, e4) = r4.unwrap();
        if e4 >= n || s.get_char(e4) != '_' {
            return Err(Error::BadSessionStr { reason: "missing hrp" });
        }
        let p = e4 + 1;
        if hrp_len > n - p {
            return Err(Error::BadSessionStr { reason: "bad hrp len" });
        }
        if size > usize::MAX / 64 {
            proof {
                assert(parse_session_head(s@) == Some(
                    (size as nat, flag as nat, threshold as nat, hrp_len as nat, p as int),
                ));
            }
            return Err(Error::BadSessionStr { reason: "size out of range" });
        }
        let hrp_slice = s.substring_ascii(p, p + hrp_len);
        let ghost n0 = self@.shares.len() as int;
        self.size = size;
        self.checksum = checksum;
        self.threshold = threshold;
        self.hrp = hrp_slice.to_owned();
        proof {
            assert(parse_session_head(s@) == Some(
                (size as nat, flag as nat, threshold as nat, hrp_len as nat, p as int),
            ));
            assert(self@.hrp =~= s@.subrange(p as int, p + hrp_len));
            assert(is_ascii_chars(self@.hrp));
            assert(self@.shares =~~= old(self)@.shares);
        }
        let ghost head = parse_session_head(s@)->0;
        let ghost start = p + hrp_len;
        let ghost ps = share_payloads(s@, start as int);
        let ghost mut pi: int = 0;
        let mut p2 = p + hrp_len;
        while p2 < n
            invariant
                p2 <= n,
                n == s@.len(),
                n <= usize::MAX - 16,
                s.is_ascii(),
                session_wf(self@),
                is_ascii_chars(self@.hrp),
                self@.hrp.len() + 16 <= usize::MAX,
                self@.size <= usize::MAX / 64,
                parse_session_head(s@) == Some(head),
                self@.size == head.0,
                self@.checksum == flag_checksum(head.1),
                self@.threshold == head.2,
                self@.hrp =~= s@.subrange(head.4, head.4 + head.3),
                self@.hrp.len() == head.3,
                start == head.4 + head.3,
                start <= p2,
                ps == share_payloads(s@, start as int),
                n0 == old(self)@.shares.len(),
                0 <= pi <= ps.len(),
                p2 as int == start || (start < n && s@[start as int] == '_'),
                p2 as int == start as int || p2 == n || s@[p2 as int] == '_',
                ps =~= ps.take(pi) + share_payloads(s@, p2 as int),
                pi > 0 ==> head.0 > head.3 + flag_checksum(head.1).spec_len() && (head.0 - head.3
                    - flag_checksum(head.1).spec_len() - 1) % 2 == 0,
                forall|j: int| 0 <= j < pi ==> payload_ok(head, #[trigger] ps[j]),
                self@.shares.len() == n0 + pi,
                forall|j: int| 0 <= j < n0 ==> #[trigger] self@.shares[j] == old(self)@.shares[j],
                forall|j: int|
                    0 <= j < pi ==> spec_sheet_chars(#[trigger] self@.shares[n0 + j])
                        =~= crate::share_str::spec_normalised(ps[j]),
            decreases n - p2,
        {
            let ghost at_start = self@;
            if s.get_char(p2) != '_' {
                proof {
                    assert(p2 as int == start);
                    assert(!parse_session_ok(s@));
                }
                return Err(Error::BadSessionStr { reason: "bad share separator" });
            }
            proof {
                lemma_sep_end_bounds(s@, p2 + 1);
                assert(share_payloads(s@, p2 as int) =~= seq![
                    s@.subrange(p2 + 1, sep_end(s@, p2 + 1)),
                ] + share_payloads(s@, sep_end(s@, p2 + 1)));
                assert(share_payloads(s@, p2 as int).len() >= 1);
                assert(ps.len() == pi + share_payloads(s@, p2 as int).len());
                assert(ps[pi] =~= s@.subrange(p2 + 1, sep_end(s@, p2 + 1)));
            }
            let mut q = p2 + 1;
            while q < n
                invariant
                    p2 + 1 <= q <= n,
                    n == s@.len(),
                    s.is_ascii(),
                    sep_end(s@, p2 + 1) == sep_end(s@, q as int),
                ensures
                    p2 + 1 <= q <= n,
                    sep_end(s@, p2 + 1) == q,
                decreases n - q,
            {
                if s.get_char(q) == '_' {
                    proof {
                        assert(sep_end(s@, q as int) == q);
                    }
                    break;
                }
                q = q + 1;
            }
            let sub = s.substring_ascii(p2 + 1, q);
            proof {
                assert(sub@ =~= ps[pi]);
            }
            let idx = match self.new_share() {
                Ok(i) => i,
                Err(e) => {
                    proof {
                        assert(!parse_session_ok(s@));
                    }
                    return Err(e);
                },
            };
            proof {
                assert(sheet_wf(self@.shares[idx as int]));
                assert(self.shares@[idx as int]@ == self@.shares[idx as int]);
                assert(self@.shares[idx as int].hrp.len() == head.3);
                assert(self@.shares[idx as int].size == head.0);
                assert(self@.shares[idx as int].checksum == flag_checksum(head.1));
                crate::session::lemma_sheet_chars_count(self@.shares[idx as int]);
            }
            let ghost pre = self@;
            let res = self.shares[idx].cells_from_str(sub);
            proof {
                assert(self@.shares[idx as int] == self.shares@[idx as int]@);
                assert forall|i: int|
                    0 <= i < self@.shares.len() implies sheet_wf(#[trigger] self@.shares[i])
                    && self@.shares[i].idx == i by {
                    if i == idx {
                    } else {
                        assert(self.shares@[i]@ == self@.shares[i]);
                        assert(pre.shares[i] == self@.shares[i]);
                    }
                }
                assert forall|i: int|
                    0 <= i < pre.shares.len() && i != idx implies #[trigger] self@.shares[i]
                    == pre.shares[i] by {
                    assert(self.shares@[i]@ == self@.shares[i]);
                }
                assert(at_start.shares.len() == n0 + pi);
                assert(idx == n0 + pi);
                assert(pre.shares.len() == n0 + pi + 1);
                assert forall|i: int| 0 <= i < n0 + pi implies #[trigger] self@.shares[i]
                    == at_start.shares[i] by {
                    assert(self.shares@[i]@ == self@.shares[i]);
                    assert(self@.shares[i] == pre.shares[i]);
                    assert(pre.shares[i] == at_start.shares[i]);
                }
            }
            if res.is_err() {
                proof {
                    assert(spec_sheet_chars(pre.shares[idx as int]).len() == sheet_cell_count(
                        head.3 as int,
                        head.0 as int,
                        flag_checksum(head.1),
                    ));
                    assert(!payload_ok(head, ps[pi]));
                    assert(!parse_session_ok(s@));
                }
                return Err(res.unwrap_err());
            }
            proof {
                assert(payload_ok(head, ps[pi]));
                assert(spec_sheet_chars(self@.shares[n0 + pi]) =~= crate::share_str::spec_normalised(
                    ps[pi],
                ));
                assert forall|j: int| 0 <= j < pi implies #[trigger] self@.shares[n0 + j]
                    == at_start.shares[n0 + j] by {
                    let i = n0 + j;
                    assert(0 <= i < n0 + pi);
                    assert(self@.shares[i] == at_start.shares[i]);
                }
                assert forall|j: int| 0 <= j < n0 implies #[trigger] self@.shares[j] == old(
                    self,
                )@.shares[j] by {
                    assert(self@.shares[j] == at_start.shares[j]);
                    assert(at_start.shares[j] == old(self)@.shares[j]);
                }
                let pi0 = pi;
                pi = pi + 1;
                assert(ps.take(pi) =~= ps.take(pi0).push(ps[pi0]));
                assert(ps =~= ps.take(pi) + share_payloads(s@, sep_end(s@, p2 + 1)));
            }
            p2 = q;
        }
        proof {
            assert(share_payloads(s@, p2 as int) =~= Seq::<Seq<char>>::empty());
            assert(ps =~= ps.take(pi));
            assert(pi == ps.len());
            assert(parse_session_ok(s@));
        }
        Ok(())
    }
}

} // verus!