//! The replay window.
use warren::noise::{ReplayWindow, REPLAY_WINDOW};

#[test]
fn replay_window_accepts_reordering_once() {
    let mut replay = ReplayWindow::new();
    for nonce in [10, 8, 9, 12, 11] {
        assert!(!replay.rejects(nonce));
        replay.record(nonce);
        assert!(replay.rejects(nonce));
    }
}

#[test]
fn replay_window_expires_only_packets_outside_the_window() {
    let mut replay = ReplayWindow::new();
    replay.record(0);
    replay.record(REPLAY_WINDOW as u64);

    assert!(replay.rejects(0));
    assert!(!replay.rejects(1));
    replay.record(1);
    assert!(replay.rejects(1));
}
