use cardinal::cancel::{CancellationToken, SearchVersion};

#[test]
fn noop_token_is_never_cancelled() {
    let active = SearchVersion::new();
    let token = CancellationToken::noop();
    assert!(!token.is_cancelled(&active));
}

#[test]
fn cancelled_after_version_change() {
    let mut active = SearchVersion::new();
    let token_v1 = CancellationToken::new(&mut active, 1);
    assert!(!token_v1.is_cancelled(&active), "initial version should be active");

    // Bump the active version, cancelling the older token.
    let _token_v2 = CancellationToken::new(&mut active, 2);
    assert!(token_v1.is_cancelled(&active));
}

#[test]
fn later_token_stays_live_until_next_issue() {
    let mut active = SearchVersion::new();
    let t1 = CancellationToken::new(&mut active, 1);
    assert!(!t1.is_cancelled(&active));
    let t2 = CancellationToken::new(&mut active, 2);
    assert!(t1.is_cancelled(&active));
    assert!(!t2.is_cancelled(&active));
    assert_eq!(active.active(), 2);
    let _t3 = CancellationToken::new(&mut active, 3);
    assert!(t2.is_cancelled(&active));
    assert!(t1.is_cancelled(&active));
}

#[test]
fn noop_token_survives_new_versions() {
    let mut active = SearchVersion::new();
    let noop = CancellationToken::noop();
    let _t = CancellationToken::new(&mut active, 7);
    assert!(!noop.is_cancelled(&active));
}

#[test]
fn fresh_cell_is_at_version_zero() {
    assert_eq!(SearchVersion::new().active(), 0);
}

#[test]
fn superseded_token_stays_cancelled() {
    let mut active = SearchVersion::new();
    let t5 = CancellationToken::new(&mut active, 5);
    let _t6 = CancellationToken::new(&mut active, 6);
    assert!(t5.is_cancelled(&active));
    let _t9 = CancellationToken::new(&mut active, 9);
    assert!(t5.is_cancelled(&active));
    assert_eq!(active.active(), 9);
}
