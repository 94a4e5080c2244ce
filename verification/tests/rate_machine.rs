use swarm_discovery::sender::{Phase, RateState, SenderAction, SenderEvent};
use swarm_discovery::socket::Mode;
use swarm_discovery::timing::{
    cutoff, gc_grace_ns, gc_interval_ns, next_extra_delay_ns, phase1_delay_ns, phase2_delay_ns,
};

#[test]
fn cutoff_is_ceil_of_tau_phi() {
    // τ = 10 s, φ = 1 Hz → 10
    assert_eq!(cutoff(10_000_000_000, 1000), 10);
    // τ = 2 s, φ = 5 Hz → 10
    assert_eq!(cutoff(2_000_000_000, 5000), 10);
    // τ = 0.7 s, φ = 2.5 Hz → ceil(1.75) = 2
    assert_eq!(cutoff(700_000_000, 2500), 2);
    // τ = 1 s, φ = 1 Hz → 1
    assert_eq!(cutoff(1_000_000_000, 1000), 1);
    // τ·φ < 1 still yields at least 1
    assert_eq!(cutoff(100_000_000, 1000), 1);
}

#[test]
fn phase1_delay_exact() {
    // interval = τ·n/10 = 1e9; jitter share = 1e9/1e6 · 500000 = 5e8
    assert_eq!(phase1_delay_ns(1_000_000_000, 10, 500_000), 1_500_000_000);
    // no jitter drawn
    assert_eq!(phase1_delay_ns(1_000_000_000, 10, 0), 1_000_000_000);
}

#[test]
fn phase2_delay_exact() {
    // interval = 0.1 s · 20 / 10 = 2e8; share = 2e8/1e6 · 250000 = 5e7; plus extra 1e6
    assert_eq!(phase2_delay_ns(20, 10, 1_000_000, 250_000), 51_000_000);
}

#[test]
fn extra_delay_grows_and_decays() {
    // responded: 0.1 s · min(10, 25/2) = 1e9
    assert_eq!(next_extra_delay_ns(true, 25, 2, 0), 1_000_000_000);
    // responded, small swarm: 0.1 s · (3/2) = 1e8
    assert_eq!(next_extra_delay_ns(true, 3, 2, 0), 100_000_000);
    // silent: decays by one window
    assert_eq!(next_extra_delay_ns(false, 25, 2, 250_000_000), 150_000_000);
    assert_eq!(next_extra_delay_ns(false, 25, 2, 50_000_000), 0);
}

#[test]
fn gc_timing_exact() {
    // τ · 12345 / 9999
    assert_eq!(gc_interval_ns(1_000_000_000), 1_234_623_462);
    // three peers, cutoff 1: 3 · 3 · τ / 1
    assert_eq!(gc_grace_ns(1_000_000_000, 1, 3), 9_000_000_000);
    // book larger than cutoff uses the cutoff
    assert_eq!(gc_grace_ns(1_000_000_000, 10, 30), 9_000_000_000);
    // book smaller than cutoff uses the book size
    assert_eq!(gc_grace_ns(2_000_000_000, 10, 4), 6_000_000_000);
}

#[test]
fn suppression_in_one_window() {
    // cutoff 2: after two observed responders the node stays silent
    let mut s = RateState::new(2);
    assert!(matches!(s.phase, Phase::Quiescent));

    let a = s.step(SenderEvent::QueryV4, true);
    assert_eq!(a, SenderAction::EnterResponding { send_query: false });
    assert!(matches!(s.phase, Phase::Responding));
    assert_eq!(s.mode, Mode::V4);

    let a = s.step(SenderEvent::Response(1), true);
    assert_eq!(a, SenderAction::Nothing);
    let a = s.step(SenderEvent::Response(1), true);
    assert_eq!(a, SenderAction::EnterQuiescent { respond: false });
    assert!(matches!(s.phase, Phase::Quiescent));
    assert!(!s.has_responded);
}

#[test]
fn response_fires_on_timer() {
    let mut s = RateState::new(2);
    let a = s.step(SenderEvent::QueryV6, true);
    assert_eq!(a, SenderAction::EnterResponding { send_query: false });
    assert_eq!(s.mode, Mode::V6);
    let epoch = s.timeout_epoch;
    let a = s.step(SenderEvent::Timeout(epoch), true);
    assert_eq!(a, SenderAction::EnterQuiescent { respond: true });
    assert!(s.has_responded);
}

#[test]
fn empty_advertisement_stays_silent() {
    let mut s = RateState::new(2);
    s.step(SenderEvent::QueryV4, false);
    let epoch = s.timeout_epoch;
    let a = s.step(SenderEvent::Timeout(epoch), false);
    assert_eq!(a, SenderAction::EnterQuiescent { respond: false });
    assert!(!s.has_responded);
}

#[test]
fn own_timer_sends_query() {
    let mut s = RateState::new(2);
    let epoch = s.timeout_epoch;
    let a = s.step(SenderEvent::Timeout(epoch), true);
    assert_eq!(a, SenderAction::EnterResponding { send_query: true });
    assert_eq!(s.mode, Mode::Any);
}

#[test]
fn stale_timer_is_ignored() {
    let mut s = RateState::new(2);
    s.step(SenderEvent::QueryV4, true);
    let old_epoch = s.timeout_epoch - 1;
    let before_phase = s.phase;
    let a = s.step(SenderEvent::Timeout(old_epoch), true);
    assert_eq!(a, SenderAction::Nothing);
    assert_eq!(s.phase, before_phase);
}

#[test]
fn size_updates_are_absorbed() {
    let mut s = RateState::new(2);
    let a = s.step(SenderEvent::SizeUpdate(42), true);
    assert_eq!(a, SenderAction::Nothing);
    assert_eq!(s.swarm_size, 42);
    assert!(matches!(s.phase, Phase::Quiescent));
}

#[test]
fn hundred_node_window_sends_at_most_one_response() {
    // a warm 100-node swarm with τ = 2 s, φ = 5 Hz: cutoff 10
    let mut s = RateState::new(cutoff(2_000_000_000, 5000));
    s.step(SenderEvent::SizeUpdate(100), true);
    s.step(SenderEvent::QueryV4, true);
    let mut sent = 0;
    let window_epoch = s.timeout_epoch;
    // 99 other nodes answer one by one
    for _ in 0..99 {
        match s.step(SenderEvent::Response(1), true) {
            SenderAction::EnterQuiescent { respond: true } => sent += 1,
            _ => {}
        }
    }
    // the window's own timer fires late and is recognised as stale
    match s.step(SenderEvent::Timeout(window_epoch), true) {
        SenderAction::EnterQuiescent { respond: true } => sent += 1,
        SenderAction::Nothing => {}
        other => panic!("unexpected action {:?}", other),
    }
    // the tenth observed response suppressed ours
    assert_eq!(sent, 0);
    assert!(matches!(s.phase, Phase::Quiescent));
}
