//! The congestion window and the round-trip estimate.
use warren::congestion::{Congestion, Rtt, INIT_WINDOW, MAX_RTT, MAX_WINDOW, MIN_WINDOW};

fn millis(n: u64) -> u128 {
    u128::from(n) * 1_000_000
}

fn secs(n: u64) -> u128 {
    millis(n) * 1000
}

#[test]
fn starts_at_the_initial_window() {
    assert_eq!(Congestion::new().window(), INIT_WINDOW);
}

#[test]
fn slow_start_doubles_until_the_cap() {
    let mut c = Congestion::new();
    assert_eq!(c.window(), 10);
    c.on_delivered();
    assert_eq!(c.window(), 20);
    c.on_delivered();
    assert_eq!(c.window(), 40);
    c.on_delivered();
    assert_eq!(c.window(), MAX_WINDOW); // 80 capped to 64
    c.on_delivered();
    assert_eq!(c.window(), MAX_WINDOW); // stays capped
}

#[test]
fn loss_halves_then_grows_linearly() {
    let mut c = Congestion::new();
    for _ in 0..5 {
        c.on_delivered(); // ramp to the cap
    }
    assert_eq!(c.window(), MAX_WINDOW); // 64
    c.on_loss();
    assert_eq!(c.window(), 32); // multiplicative decrease
                                // now at/above ssthresh (32): congestion avoidance, +1 per round
    c.on_delivered();
    assert_eq!(c.window(), 33);
    c.on_delivered();
    assert_eq!(c.window(), 34);
}

#[test]
fn the_window_never_drops_below_the_floor() {
    let mut c = Congestion::new();
    for _ in 0..20 {
        c.on_loss(); // hammer it down
    }
    assert!(c.window() >= MIN_WINDOW);
    assert_eq!(c.window(), MIN_WINDOW);
}

#[test]
fn repeated_loss_keeps_it_at_the_floor_not_below() {
    let mut c = Congestion::new();
    c.on_loss();
    let after_one = c.window();
    c.on_loss();
    assert!(c.window() <= after_one);
    assert!(c.window() >= MIN_WINDOW);
}

// A generous cap for the tests that aren't about capping.
const NO_CAP: u128 = 10_000_000_000;

#[test]
fn rtt_starts_at_the_initial_estimate() {
    assert_eq!(
        Rtt::new(millis(100), NO_CAP).get(),
        millis(100)
    );
}

#[test]
fn rtt_first_sample_replaces_then_later_ones_smooth() {
    let mut r = Rtt::new(millis(100), NO_CAP);
    // The first sample snaps the estimate to the measured path (not smoothed
    // against the assumed 100ms).
    r.sample(millis(200));
    assert_eq!(r.get(), millis(200));
    // The next smooths: 7/8*200 + 1/8*40 = 180ms.
    r.sample(millis(40));
    assert_eq!(r.get(), millis(180));
}

#[test]
fn rtt_converges_on_a_steady_path() {
    let mut r = Rtt::new(millis(100), NO_CAP);
    for _ in 0..50 {
        r.sample(millis(20));
    }
    // Should have converged close to the steady 20ms.
    let got = r.get();
    assert!(
        got >= millis(20) && got <= millis(22),
        "srtt {got:?} should be ~20ms"
    );
}

#[test]
fn rtt_is_capped_at_the_configured_max() {
    // The estimate never exceeds the cap (derived from request_timeout), even
    // when a stalled peer produces absurd samples.
    let cap = millis(200);
    assert_eq!(Rtt::new(secs(30), cap).get(), cap); // capped up front
    let mut r = Rtt::new(millis(50), cap);
    for _ in 0..100 {
        r.sample(secs(60));
    }
    assert!(r.get() <= cap);
}

#[test]
fn rtt_max_is_bounded_by_the_absolute_backstop() {
    // An enormous request_timeout is still clamped by MAX_RTT.
    assert_eq!(
        Rtt::new(secs(30), secs(600)).get(),
        MAX_RTT
    );
}
