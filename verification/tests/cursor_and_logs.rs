use holdem_equity::enumerate::get_index;
use holdem_equity::logfmt::{log_debug_debug, log_debug_display, log_info_debug,
    log_info_display};

#[test]
fn cursor_walks_pairs_in_lexicographic_order() {
    // Three alive positions, two slots: the walk must visit (0,1), (0,2),
    // (1,2) exactly once each and then report exhaustion from slot 0.
    let mut cursor: Vec<i32> = vec![-1, -1];
    let mut used: Vec<bool> = vec![false, false, false];

    // First board: slot 0 claims 0, slot 1 claims 1.
    assert_eq!(get_index(&mut cursor, 0, 3, &mut used, &false), (false, false));
    assert_eq!(cursor, vec![0, -1]);
    assert_eq!(get_index(&mut cursor, 1, 3, &mut used, &false), (false, false));
    assert_eq!(cursor, vec![0, 1]);
    assert_eq!(used, vec![true, true, false]);

    // Slot 1 advances: (0,2).
    assert_eq!(get_index(&mut cursor, 1, 3, &mut used, &true), (false, false));
    assert_eq!(cursor, vec![0, 2]);
    assert_eq!(used, vec![true, false, true]);

    // Slot 1 overflows and backtracks.
    assert_eq!(get_index(&mut cursor, 1, 3, &mut used, &true), (false, true));
    assert_eq!(cursor, vec![0, -1]);
    assert_eq!(used, vec![true, false, false]);

    // Slot 0 advances to 1; slot 1 re-enters after it: (1,2).
    assert_eq!(get_index(&mut cursor, 0, 3, &mut used, &true), (false, false));
    assert_eq!(cursor, vec![1, -1]);
    assert_eq!(get_index(&mut cursor, 1, 3, &mut used, &true), (false, false));
    assert_eq!(cursor, vec![1, 2]);

    // Slot 1 overflows; slot 0 advances to 2; slot 1 finds nothing after 2;
    // slot 0 overflows: the walk has finished.
    assert_eq!(get_index(&mut cursor, 1, 3, &mut used, &true), (false, true));
    assert_eq!(get_index(&mut cursor, 0, 3, &mut used, &true), (false, false));
    assert_eq!(cursor, vec![2, -1]);
    assert_eq!(get_index(&mut cursor, 1, 3, &mut used, &true), (false, true));
    assert_eq!(get_index(&mut cursor, 0, 3, &mut used, &true), (true, false));
}

#[test]
fn cursor_skips_claimed_positions() {
    let mut cursor: Vec<i32> = vec![-1];
    let mut used: Vec<bool> = vec![true, true, false, true];
    assert_eq!(get_index(&mut cursor, 0, 4, &mut used, &false), (false, false));
    assert_eq!(cursor, vec![2]);
    assert_eq!(used, vec![true, true, true, true]);
}

#[test]
fn log_lines_carry_level_tag_and_trace() {
    assert_eq!(
        log_info_display("req url", "/calculate_rating", "7f3a"),
        "INFO req url:/calculate_rating(trace_id:7f3a)"
    );
    assert_eq!(
        log_info_debug("win", "[1, 2]", "7f3a"),
        "INFO win:[1, 2](trace_id:7f3a)"
    );
    assert_eq!(
        log_debug_display("rsp", "ok", "x"),
        "DEBUG rsp:ok(trace_id:x)"
    );
    assert_eq!(
        log_debug_debug("alive", "[0]", ""),
        "DEBUG alive:[0](trace_id:)"
    );
}
