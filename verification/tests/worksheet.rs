//! Worksheet construction, geometry and propagation tests.

use volvelle::checksum_worksheet::{CreateMode, Worksheet};
use volvelle::dom_action::ActionType;
use volvelle::error::Error;
use volvelle::fe::Checksum;

#[test]
fn user_test() {
    let mut worksheet =
        Worksheet::new("ms", CreateMode::Create, 48, Checksum::Codex32, 0).unwrap();
    assert!(worksheet.handle_input_change(0, 0, "c").is_ok());
    assert!(worksheet.handle_input_change(0, 1, "c").is_ok());
    assert!(worksheet.handle_input_change(0, 2, "c").is_ok());
    assert!(worksheet.handle_input_change(0, 3, "c").is_ok());
    assert!(worksheet.handle_input_change(0, 4, "c").is_ok());
    assert!(worksheet.handle_input_change(0, 5, "c").is_ok());
    assert!(worksheet.handle_input_change(0, 6, "c").is_ok());
    assert!(worksheet.handle_input_change(0, 7, "c").is_ok());
    assert!(worksheet.handle_input_change(0, 8, "c").is_ok());
    assert!(worksheet.handle_input_change(0, 9, "c").is_ok());
    assert!(worksheet.handle_input_change(0, 10, "c").is_ok());
    assert!(worksheet.handle_input_change(0, 11, "c").is_ok());
    assert!(worksheet.handle_input_change(0, 12, "c").is_ok());

    assert!(worksheet.handle_input_change(2, 13, "c").is_ok());
    assert!(worksheet.handle_input_change(2, 14, "c").is_ok());
    assert!(worksheet.handle_input_change(4, 13, "c").is_ok());
    assert!(worksheet.handle_input_change(4, 14, "c").is_ok());
    assert!(worksheet.handle_input_change(6, 13, "c").is_ok());
    assert!(worksheet.handle_input_change(6, 14, "c").is_ok());
    assert!(worksheet.handle_input_change(8, 13, "c").is_ok());
    assert!(worksheet.handle_input_change(8, 14, "c").is_ok());
    assert!(worksheet.handle_input_change(10, 13, "c").is_ok());
    assert!(worksheet.handle_input_change(10, 14, "c").is_ok());
    assert!(worksheet.handle_input_change(12, 13, "c").is_ok());
    assert!(worksheet.handle_input_change(12, 14, "c").is_ok());
    assert!(worksheet.handle_input_change(14, 13, "c").is_ok());
    assert!(worksheet.handle_input_change(14, 14, "c").is_ok());
    assert!(worksheet.handle_input_change(16, 13, "c").is_ok());
    assert!(worksheet.handle_input_change(16, 14, "c").is_ok());
    assert!(worksheet.handle_input_change(18, 13, "c").is_ok());
    assert!(worksheet.handle_input_change(18, 14, "c").is_ok());
    assert!(worksheet.handle_input_change(20, 13, "c").is_ok());

    assert_eq!(worksheet.cell_symbol(20, 14), Some('D'));
    assert_eq!(worksheet.cell_symbol(22, 13), Some('C'));
    assert_eq!(worksheet.cell_symbol(22, 14), Some('N'));
    assert_eq!(worksheet.cell_symbol(24, 13), Some('Q'));
    assert_eq!(worksheet.cell_symbol(24, 14), Some('4'));
    assert_eq!(worksheet.cell_symbol(26, 13), Some('0'));
    assert_eq!(worksheet.cell_symbol(26, 14), Some('P'));
    assert_eq!(worksheet.cell_symbol(28, 13), Some('D'));
    assert_eq!(worksheet.cell_symbol(28, 14), Some('U'));
    assert_eq!(worksheet.cell_symbol(30, 13), Some('Y'));
    assert_eq!(worksheet.cell_symbol(30, 14), Some('9'));
    assert_eq!(worksheet.cell_symbol(32, 13), Some('7'));
    assert_eq!(worksheet.cell_symbol(32, 14), Some('M'));

    assert_eq!(worksheet.cell_below(2, 15), Some((3, 13)));
    assert_eq!(worksheet.cell_below(3, 13), Some((4, 13)));
}

#[test]
fn minimal_bech32() {
    let mut worksheet =
        Worksheet::new("ms", CreateMode::Create, 17, Checksum::Bech32, 0).unwrap();
    assert_eq!(worksheet.header_str(), "______");
    assert!(worksheet.handle_input_change(0, 0, "c").is_ok());
    assert_eq!(worksheet.header_str(), "C_____");
    assert!(worksheet.handle_input_change(0, 1, "c").is_ok());
    assert_eq!(worksheet.header_str(), "CC____");
    assert!(worksheet.handle_input_change(0, 2, "c").is_ok());
    assert!(worksheet.handle_input_change(0, 3, "c").is_ok());
    assert!(worksheet.handle_input_change(0, 4, "c").is_ok());
    assert_eq!(worksheet.header_str(), "CCCCC_");

    assert!(worksheet.handle_input_change(2, 6, "c").is_ok());
    assert!(worksheet.handle_input_change(2, 7, "c").is_ok());
    assert!(worksheet.handle_input_change(0, 5, "c").is_ok());

    assert_eq!(worksheet.cell_symbol(4, 6), Some('5'));
    assert_eq!(worksheet.cell_symbol(4, 7), Some('J'));
    assert_eq!(worksheet.cell_symbol(6, 6), Some('3'));
    assert_eq!(worksheet.cell_symbol(6, 7), Some('C'));
    assert_eq!(worksheet.cell_symbol(8, 6), Some('G'));
    assert_eq!(worksheet.cell_symbol(8, 7), Some('S'));
}

#[test]
fn case_normalisation_flashes_upper() {
    let mut ws = Worksheet::new("ms", CreateMode::Create, 48, Checksum::Codex32, 0).unwrap();
    let acts = ws.handle_input_change(0, 0, "a").unwrap();
    assert!(!acts.is_empty());
    assert_eq!(acts[0].ty, ActionType::FlashSet);
    assert_eq!(acts[0].value, Some('A'));
    assert_eq!(acts[0].id, "inp_0_0_0");
    for a in &acts[1..] {
        assert_eq!(a.ty, ActionType::SetValue);
    }
    // an upper-case edit emits no flash
    let acts2 = ws.handle_input_change(0, 1, "A").unwrap();
    for a in &acts2 {
        assert_eq!(a.ty, ActionType::SetValue);
    }
}

#[test]
fn invalid_symbol_flashes_error() {
    let mut ws = Worksheet::new("ms", CreateMode::Create, 48, Checksum::Codex32, 0).unwrap();
    let acts = ws.handle_input_change(0, 3, "!").unwrap();
    assert_eq!(acts.len(), 1);
    assert_eq!(acts[0].ty, ActionType::FlashError);
    assert_eq!(acts[0].id, "inp_0_0_3");
    assert_eq!(acts[0].value, None);
    assert_eq!(ws.cell_symbol(0, 3), None);
    // 'b' and 'i' are not bech32 characters either
    let acts = ws.handle_input_change(0, 3, "b").unwrap();
    assert_eq!(acts.len(), 1);
    assert_eq!(acts[0].ty, ActionType::FlashError);
    // too-long input flashes too
    let acts = ws.handle_input_change(0, 3, "cc").unwrap();
    assert_eq!(acts.len(), 1);
    assert_eq!(acts[0].ty, ActionType::FlashError);
}

#[test]
fn empty_edit_clears_without_recompute() {
    let mut ws = Worksheet::new("ms", CreateMode::Create, 17, Checksum::Bech32, 0).unwrap();
    for (r, c) in [(0, 0), (0, 1), (0, 2), (0, 3), (0, 4), (2, 6), (2, 7), (0, 5)] {
        assert!(ws.handle_input_change(r, c, "c").is_ok());
    }
    let downstream = ws.cell_symbol(4, 6);
    assert_eq!(downstream, Some('5'));
    // clearing a source cell emits nothing and leaves downstream cells stale
    let acts = ws.handle_input_change(0, 5, "").unwrap();
    assert!(acts.is_empty());
    assert_eq!(ws.cell_symbol(0, 5), None);
    assert_eq!(ws.cell_symbol(4, 6), downstream);
}

#[test]
fn idempotent_scenario_repeat() {
    let run = || {
        let mut ws =
            Worksheet::new("ms", CreateMode::Create, 17, Checksum::Bech32, 0).unwrap();
        let mut all_acts = Vec::new();
        for (r, c) in [(0, 0), (0, 1), (0, 2), (0, 3), (0, 4), (2, 6), (2, 7), (0, 5)] {
            all_acts.push(ws.handle_input_change(r, c, "c").unwrap());
        }
        (ws, all_acts)
    };
    let (mut ws1, _) = run();
    let (ws2, _) = run();
    // identical inputs give identical final worksheets
    for r in 0..9 {
        for c in 0..9 {
            assert_eq!(ws1.cell_symbol(r, c), ws2.cell_symbol(r, c));
        }
    }
    // running the same edits again changes nothing: only flash-set records
    // for the re-typed lower-case characters, no Set action at all
    for (r, c) in [(0, 0), (0, 1), (0, 2), (0, 3), (0, 4), (2, 6), (2, 7), (0, 5)] {
        let acts = ws1.handle_input_change(r, c, "c").unwrap();
        for a in &acts {
            assert_ne!(a.ty, ActionType::SetValue);
        }
    }
    for r in 0..9 {
        for c in 0..9 {
            assert_eq!(ws1.cell_symbol(r, c), ws2.cell_symbol(r, c));
        }
    }
}

#[test]
fn construction_errors() {
    match Worksheet::new("ms", CreateMode::Create, 10, Checksum::Codex32, 0) {
        Err(Error::TooShort { minimum, actual }) => {
            assert_eq!(minimum, 15);
            assert_eq!(actual, 10);
        }
        _ => panic!("expected TooShort"),
    }
    match Worksheet::new("ms", CreateMode::Create, 17, Checksum::Codex32, 0) {
        Err(Error::OddLength { data_len }) => assert_eq!(data_len, 1),
        _ => panic!("expected OddLength"),
    }
    assert!(Worksheet::new("ms", CreateMode::Create, 16, Checksum::Codex32, 0).is_ok());
}

#[test]
fn edit_errors() {
    let mut ws = Worksheet::new("ms", CreateMode::Create, 17, Checksum::Bech32, 0).unwrap();
    match ws.handle_input_change(99, 0, "c") {
        Err(Error::InvalidRow { row, n_rows }) => {
            assert_eq!(row, 99);
            assert_eq!(n_rows, 11);
        }
        _ => panic!("expected InvalidRow"),
    }
    match ws.handle_input_change(0, 99, "c") {
        Err(Error::InvalidCell { row, cell, n_cells }) => {
            assert_eq!(row, 0);
            assert_eq!(cell, 99);
            assert_eq!(n_cells, 6);
        }
        _ => panic!("expected InvalidCell"),
    }
}

#[test]
fn share_serialization_round_trip() {
    let mut ws = Worksheet::new("ms", CreateMode::Create, 17, Checksum::Bech32, 0).unwrap();
    assert!(ws.handle_input_change(0, 0, "c").is_ok());
    assert!(ws.handle_input_change(2, 6, "k").is_ok());
    let mut st = String::new();
    ws.cells_into_str(&mut st);
    let mut ws2 = Worksheet::new("ms", CreateMode::Create, 17, Checksum::Bech32, 0).unwrap();
    ws2.cells_from_str(&st).unwrap();
    for r in 0..9 {
        for c in 0..9 {
            assert_eq!(ws.cell_symbol(r, c), ws2.cell_symbol(r, c));
        }
    }
}

#[test]
fn share_deserialization_accepts_either_case() {
    let mut ws = Worksheet::new("ms", CreateMode::Create, 17, Checksum::Bech32, 0).unwrap();
    let mut st = String::new();
    ws.cells_into_str(&mut st);
    // lower-case symbols decode to their upper-case cells
    let lowered = st.replacen('-', "c", 1);
    ws.cells_from_str(&lowered).unwrap();
    assert_eq!(ws.cell_symbol(0, 0), Some('C'));
    let mut st2 = String::new();
    ws.cells_into_str(&mut st2);
    assert_eq!(st2, lowered.to_uppercase().replace('_', "_"));
}

#[test]
fn share_deserialization_errors() {
    let mut ws = Worksheet::new("ms", CreateMode::Create, 17, Checksum::Bech32, 0).unwrap();
    match ws.cells_from_str("CC") {
        Err(Error::BadShareDataLen { len }) => assert_eq!(len, 2),
        _ => panic!("expected BadShareDataLen"),
    }
    let mut st = String::new();
    ws.cells_into_str(&mut st);
    let bad = st.replacen('-', "b", 1);
    match ws.cells_from_str(&bad) {
        Err(Error::BadBech32Char { ch }) => assert_eq!(ch, 'b'),
        _ => panic!("expected BadBech32Char"),
    }
}

#[test]
fn dom_cells_projection() {
    let ws = Worksheet::new("ms", CreateMode::Create, 17, Checksum::Bech32, 0).unwrap();
    let cells = ws.get_dom_cells();
    // row 0: 2 hrp cells + '1' separator + 6 share cells
    assert_eq!(cells[0].ty, "fixed_hrp");
    assert_eq!(cells[0].dom_id, "cell_hrp_0");
    assert_eq!(cells[0].val, Some('M'));
    assert_eq!(cells[2].val, Some('1'));
    assert_eq!(cells[2].x, 2);
    assert_eq!(cells[3].ty, "share_data");
    assert_eq!(cells[3].dom_id, "inp_0_0_0");
    assert_eq!(cells[3].x, 3);
    assert_eq!(cells[3].y, 0);
    // row 1 starts with its '=' operator at the staircase offset
    assert_eq!(cells[9].ty, "symbol");
    assert_eq!(cells[9].dom_id, "cell_symb_1");
    assert_eq!(cells[9].val, Some('+'));
    // residue row 1 is pre-filled with the HRP residue
    assert_eq!(cells[10].ty, "residue");
    assert_eq!(cells[10].val, Some('6'));
    // the global residue row shows QQQQQP in create mode
    let last = cells.last().unwrap();
    assert_eq!(last.ty, "global_residue");
    assert_eq!(last.val, Some('P'));
}
