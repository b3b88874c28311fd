use reattachd::api::register_error_of;
use reattachd::auth::SetupTokenValidation;
use reattachd::tmux::{
    build_sessions, make_target, parse_pane_record, parse_u32_or_zero, sessions_of_listing,
    split_char,
};

#[test]
fn split_keeps_every_piece_in_order() {
    let pieces = split_char("a|b||c", '|');
    assert_eq!(pieces, vec!["a", "b", "", "c"]);
    assert_eq!(split_char("", '|'), vec![""]);
    assert_eq!(split_char("|", '|'), vec!["", ""]);
    assert_eq!(split_char("plain", '|'), vec!["plain"]);
}

#[test]
fn index_fields_read_as_numbers_or_zero() {
    assert_eq!(parse_u32_or_zero("42"), 42);
    assert_eq!(parse_u32_or_zero("0"), 0);
    assert_eq!(parse_u32_or_zero("4294967295"), u32::MAX);
    assert_eq!(parse_u32_or_zero(""), 0);
    assert_eq!(parse_u32_or_zero("4x"), 0);
    assert_eq!(parse_u32_or_zero("4294967296"), 0);
}

#[test]
fn a_listing_line_becomes_a_record() {
    let rec = parse_pane_record("main|1|0|editor|1|2|0|/home/u").expect("eight fields");
    assert_eq!(rec.session_name, "main");
    assert!(rec.session_attached);
    assert_eq!(rec.window_index, 0);
    assert_eq!(rec.window_name, "editor");
    assert!(rec.window_active);
    assert_eq!(rec.pane_index, 2);
    assert!(!rec.pane_active);
    assert_eq!(rec.current_path, "/home/u");
    assert!(parse_pane_record("short|line").is_none());
    assert!(parse_pane_record("").is_none());
}

#[test]
fn targets_use_the_multiplexer_address_form() {
    assert_eq!(make_target("main", 0, 2), "main:0.2");
    assert_eq!(make_target("work", 12, 345), "work:12.345");
}

#[test]
fn records_group_into_sessions_windows_and_panes() {
    let listing = "\
main|1|0|editor|1|0|1|/home/u\n\
main|1|0|editor|1|1|0|/home/u/src\n\
main|1|1|logs|0|0|1|/var/log\n\
other|0|0|shell|1|0|1|/tmp\n";
    let sessions = sessions_of_listing(listing);
    assert_eq!(sessions.len(), 2);
    assert_eq!(sessions[0].name, "main");
    assert!(sessions[0].attached);
    assert_eq!(sessions[0].windows.len(), 2);
    assert_eq!(sessions[0].windows[0].name, "editor");
    assert_eq!(sessions[0].windows[0].panes.len(), 2);
    assert_eq!(sessions[0].windows[0].panes[0].target, "main:0.0");
    assert_eq!(sessions[0].windows[0].panes[1].target, "main:0.1");
    assert_eq!(sessions[0].windows[1].name, "logs");
    assert_eq!(sessions[0].windows[1].panes[0].current_path, "/var/log");
    assert_eq!(sessions[1].name, "other");
    assert!(!sessions[1].attached);
    // malformed lines and the trailing empty line are skipped
    assert!(sessions_of_listing("no server running\n").is_empty());
    assert!(sessions_of_listing("").is_empty());
}

#[test]
fn grouping_flat_records_directly() {
    let a = parse_pane_record("s|1|0|w|1|0|1|/a").expect("valid");
    let b = parse_pane_record("s|1|0|w|1|1|0|/b").expect("valid");
    let sessions = build_sessions(&vec![a, b]);
    assert_eq!(sessions.len(), 1);
    assert_eq!(sessions[0].windows.len(), 1);
    assert_eq!(sessions[0].windows[0].panes.len(), 2);
}

#[test]
fn registration_failures_map_to_stable_codes() {
    let expired = register_error_of(&SetupTokenValidation::Expired);
    assert_eq!(expired.code, "TOKEN_EXPIRED");
    assert_eq!(expired.error, "Setup token has expired. Please generate a new QR code.");
    let invalid = register_error_of(&SetupTokenValidation::Invalid);
    assert_eq!(invalid.code, "TOKEN_INVALID");
    assert_eq!(invalid.error, "Invalid setup token");
    assert_eq!(reattachd::default_lines(), 200);
}
