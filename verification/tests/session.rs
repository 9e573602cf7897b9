//! Session, cell-id grammar and persistence tests.

use volvelle::dom_action::ActionType;
use volvelle::error::Error;
use volvelle::fe::Checksum;
use volvelle::session::{cell_from_name, Session};

#[test]
fn test_cell_from_name() {
    assert_eq!(cell_from_name("inp_0_0_0"), Ok([0, 0, 0]));
    assert_eq!(cell_from_name("inp_0_10_0"), Ok([0, 10, 0]));
    assert_eq!(cell_from_name("inp_100_10_10"), Ok([100, 10, 10]));
    assert!(cell_from_name("inp_10_10_10_10").is_err());
    assert!(cell_from_name("inp_10_10").is_err());
    assert!(cell_from_name("inP_10_10_10").is_err());
    assert!(cell_from_name("inp_10").is_err());
    assert!(cell_from_name("inp___").is_err());
}

#[test]
fn cell_from_name_errors_carry_the_id() {
    match cell_from_name("inp_1_2_x") {
        Err(Error::UnknownCell { id, .. }) => assert_eq!(id, "inp_1_2_x"),
        _ => panic!("expected UnknownCell"),
    }
    assert!(cell_from_name("").is_err());
    assert!(cell_from_name("inp_+1_2_3").is_err());
    assert!(cell_from_name("inp_99999999999999999999999999_0_0").is_err());
}

#[test]
fn session_share_lifecycle() {
    let mut sess = Session::new("ms".to_string(), 2, 17, Checksum::Bech32);
    assert_eq!(sess.n_shares(), 0);
    assert_eq!(sess.hrp(), "ms");
    let idx = sess.new_share().unwrap();
    assert_eq!(idx, 0);
    assert_eq!(sess.n_shares(), 1);
    assert_eq!(sess.get_checksum_worksheet_header_str(0).unwrap(), "______");
    match sess.get_checksum_worksheet_header_str(7) {
        Err(Error::InvalidShare { idx, n_shares }) => {
            assert_eq!(idx, 7);
            assert_eq!(n_shares, 1);
        }
        _ => panic!("expected InvalidShare"),
    }
    let cells = sess.get_checksum_worksheet_cells(0).unwrap();
    assert!(!cells.is_empty());
    assert_eq!(cells[0].ty, "fixed_hrp");
}

#[test]
fn session_routes_edits_by_id() {
    let mut sess = Session::new("ms".to_string(), 2, 17, Checksum::Bech32);
    sess.new_share().unwrap();
    assert_eq!(sess.get_idx_of("inp_0_2_6").unwrap(), 0);
    let acts = sess.handle_input_change("inp_0_0_0", "c").unwrap();
    assert!(!acts.is_empty());
    assert_eq!(sess.get_checksum_worksheet_header_str(0).unwrap(), "C_____");
    // lower-case edits flash the corrected symbol first
    let acts = sess.handle_input_change("inp_0_0_1", "a").unwrap();
    assert_eq!(acts[0].ty, ActionType::FlashSet);
    assert_eq!(acts[0].value, Some('A'));
    // bad ids and bad share indices are errors
    assert!(matches!(
        sess.handle_input_change("inp_9_0_0", "c"),
        Err(Error::InvalidShare { .. })
    ));
    assert!(matches!(
        sess.handle_input_change("nonsense", "c"),
        Err(Error::UnknownCell { .. })
    ));
}

#[test]
fn local_storage_round_trip() {
    let mut sess = Session::new("ms".to_string(), 2, 17, Checksum::Bech32);
    sess.new_share().unwrap();
    sess.handle_input_change("inp_0_0_0", "c").unwrap();
    sess.handle_input_change("inp_0_0_1", "c").unwrap();
    let st = sess.local_storage_str();
    assert!(st.starts_with("17_0_2_2_ms_"));

    let mut sess2 = Session::new(String::new(), 0, 0, Checksum::Codex32);
    sess2.update_from_local_storage_str(&st).unwrap();
    assert_eq!(sess2.size, 17);
    assert_eq!(sess2.threshold, 2);
    assert_eq!(sess2.checksum, Checksum::Bech32);
    assert_eq!(sess2.hrp(), "ms");
    assert_eq!(sess2.n_shares(), 1);
    assert_eq!(
        sess2.get_checksum_worksheet_header_str(0).unwrap(),
        sess.get_checksum_worksheet_header_str(0).unwrap()
    );
    assert_eq!(sess2.local_storage_str(), st);
}

#[test]
fn local_storage_header_format() {
    let sess = Session::new("ms".to_string(), 3, 48, Checksum::Codex32);
    assert_eq!(sess.local_storage_str(), "48_1_3_2_ms");
}

#[test]
fn bad_storage_strings_fail_closed() {
    let mut sess = Session::new("ms".to_string(), 2, 17, Checksum::Bech32);
    assert!(matches!(
        sess.update_from_local_storage_str(""),
        Err(Error::BadSessionStr { .. })
    ));
    assert!(matches!(
        sess.update_from_local_storage_str("garbage"),
        Err(Error::BadSessionStr { .. })
    ));
    assert!(matches!(
        sess.update_from_local_storage_str("17_9_2_2_ms"),
        Err(Error::BadSessionStr { .. })
    ));
    assert!(matches!(
        sess.update_from_local_storage_str("17_0_2_9_ms"),
        Err(Error::BadSessionStr { .. })
    ));
    // a valid header with a malformed share payload surfaces the share error
    assert!(matches!(
        sess.update_from_local_storage_str("17_0_2_2_ms_CC"),
        Err(Error::BadShareDataLen { .. })
    ));
    // a too-short size fails share construction
    assert!(matches!(
        sess.update_from_local_storage_str("3_0_2_2_ms_C"),
        Err(Error::TooShort { .. })
    ));
}

#[test]
fn set_hrp_changes_future_shares() {
    let mut sess = Session::new("ms".to_string(), 2, 17, Checksum::Bech32);
    sess.set_hrp("MS".to_string());
    assert_eq!(sess.hrp(), "MS");
    sess.new_share().unwrap();
    // worksheets store the upper-cased HRP either way; residues agree
    let cells = sess.get_checksum_worksheet_cells(0).unwrap();
    assert_eq!(cells[0].val, Some('M'));
    assert_eq!(cells[1].val, Some('S'));
}
