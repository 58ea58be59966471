use belka::hostkey::{accepts_key, connect_error, fingerprint_of, tofu_value};
use belka::hostkey::HOST_KEY_MISMATCH_PREFIX;
use belka::tunnel::{
    session_timeouts, watchdog, Bridge, BridgeEvent, ClientHandler, Control, Next, Reconnect,
    Status, StopReason, NANOS,
};
use russh::keys::key::KeyPair;
use russh::keys::PublicKeyBase64;

#[test]
fn control_initial_value() {
    assert!(Control::new(true).is_enabled());
    assert!(!Control::new(false).is_enabled());
}

#[test]
fn control_subscribe_observes_change() {
    let mut ctl = Control::new(false);
    assert!(ctl.set_enabled(true));
    assert!(ctl.is_enabled());
}

#[test]
fn control_no_op_set_does_not_wake_subscribers() {
    let mut ctl = Control::new(true);
    assert!(!ctl.set_enabled(true));
    assert!(!ctl.set_enabled(true));
    assert!(ctl.is_enabled());
}

#[test]
fn control_no_lost_wakeup_on_rapid_flip() {
    let mut ctl = Control::new(true);
    assert!(ctl.is_enabled());
    assert!(ctl.set_enabled(false));
    assert!(!ctl.is_enabled());
}

// ---------- Reconnecting ----------

#[test]
fn disabled_tunnel_waits() {
    let run = Reconnect::new(1, 60);
    let action = run.begin(false);
    assert_eq!(action.status, Some(Status::Disabled));
    assert_eq!(action.next, Next::WaitForEnable);
    let action = run.begin(true);
    assert_eq!(action.status, Some(Status::Connecting));
    assert_eq!(action.next, Next::RunSession);
}

#[test]
fn failed_sessions_back_off() {
    let mut run = Reconnect::new(1, 3);
    let action = run.session_ended(Some("boom".into()), true);
    assert_eq!(action.status, Some(Status::Disconnected("boom".into())));
    assert_eq!(action.next, Next::Sleep(NANOS));
    run.slept(2 * NANOS);
    let action = run.session_ended(Some("boom".into()), true);
    assert_eq!(action.next, Next::Sleep(2 * NANOS));
    // The wait never passes its bound.
    run.slept(4 * NANOS);
    let action = run.session_ended(Some("boom".into()), true);
    assert_eq!(action.next, Next::Sleep(3 * NANOS));
}

#[test]
fn clean_end_starts_over() {
    let mut run = Reconnect::new(1, 60);
    run.slept(8 * NANOS);
    let action = run.session_ended(None, true);
    assert_eq!(action.status, Some(Status::Disconnected("session ended".into())));
    assert_eq!(action.next, Next::Sleep(NANOS));
}

#[test]
fn turned_off_tunnel_does_not_sleep() {
    let mut run = Reconnect::new(1, 60);
    run.slept(8 * NANOS);
    let action = run.session_ended(Some("boom".into()), false);
    assert_eq!(action.status, Some(Status::Disabled));
    assert_eq!(action.next, Next::WaitForEnable);
    run.enabled_again();
    let action = run.begin(true);
    assert_eq!(action.next, Next::RunSession);
    assert_eq!(run.backoff, NANOS);
}

#[test]
fn watchdog_stops_dead_and_disabled_sessions() {
    assert_eq!(watchdog(true, true, true), Some(StopReason::SessionClosed));
    assert_eq!(watchdog(true, false, false), Some(StopReason::TurnedOff));
    assert_eq!(watchdog(true, false, true), None);
    // A change of the switch looks at the switch alone.
    assert_eq!(watchdog(false, true, true), None);
    assert_eq!(watchdog(false, false, false), Some(StopReason::TurnedOff));
}

#[test]
fn timeouts_follow_the_keepalive() {
    let t = session_timeouts(30);
    assert_eq!(t.inactivity_secs, 90);
    assert_eq!(t.keepalive_secs, 30);
    assert_eq!(t.keepalive_max, 3);
}

// ---------- Bridging ----------

#[test]
fn bridge_closes_each_way_by_itself() {
    let mut bridge = Bridge::new();
    let signals = bridge.observe(BridgeEvent::ClientEnd);
    assert!(signals.end_to_server);
    assert!(!bridge.is_over());
    bridge.observe(BridgeEvent::ServerData);
    assert!(!bridge.is_over());
    let signals = bridge.observe(BridgeEvent::ServerEnd);
    assert!(signals.end_to_client);
    assert!(bridge.is_over());
}

#[test]
fn broken_ends_close_both_ways() {
    for event in [BridgeEvent::ChannelBroken, BridgeEvent::ClientBroken] {
        let mut bridge = Bridge::new();
        bridge.observe(event);
        assert!(bridge.is_over());
    }
    let mut bridge = Bridge::new();
    let signals = bridge.observe(BridgeEvent::ClientError);
    assert!(signals.end_to_server);
    assert!(bridge.client_done);
    assert!(!bridge.server_done);
}

// ---------- Host keys ----------

fn key() -> Vec<u8> {
    let pair = KeyPair::generate_ed25519().unwrap();
    pair.clone_public_key().unwrap().public_key_bytes()
}

#[test]
fn fingerprints_are_those_of_the_key() {
    let pair = KeyPair::generate_ed25519().unwrap();
    let public = pair.clone_public_key().unwrap();
    let blob = public.public_key_bytes();
    let print = fingerprint_of(&blob).unwrap();
    assert_eq!(print, format!("SHA256:{}", public.fingerprint()));
    assert_eq!(fingerprint_of(&blob), Some(print));
    assert_eq!(fingerprint_of(b"not a key"), None);
}

#[test]
fn tunnel_pins_the_first_key() {
    let first = key();
    let mut handler = ClientHandler { expected: None, observed: None };
    assert!(handler.check_server_key(&first));
    assert_eq!(handler.observed, fingerprint_of(&first));
    let pinned = tofu_value(&handler.expected, &handler.observed);
    assert_eq!(pinned, fingerprint_of(&first));

    let mut again = ClientHandler { expected: pinned.clone(), observed: None };
    assert!(again.check_server_key(&first));
    assert_eq!(tofu_value(&again.expected, &again.observed), None);

    let mut other = ClientHandler { expected: pinned, observed: None };
    assert!(!other.check_server_key(&key()));
}

#[test]
fn keys_are_compared_by_fingerprint() {
    let a = Some("SHA256:a".to_string());
    let b = Some("SHA256:b".to_string());
    assert!(accepts_key(&a, &a));
    assert!(!accepts_key(&a, &b));
    assert!(accepts_key(&None, &b));
    assert!(!accepts_key(&a, &None));
}

#[test]
fn mismatches_are_told_apart_from_other_failures() {
    let a = Some("SHA256:a".to_string());
    let b = Some("SHA256:b".to_string());
    let text = connect_error("h", 22, "refused", &a, &b);
    assert!(text.starts_with(HOST_KEY_MISMATCH_PREFIX), "{text}");
    assert!(text.contains("SHA256:a") && text.contains("SHA256:b"), "{text}");
    let text = connect_error("h", 22, "refused", &a, &a);
    assert!(!text.starts_with(HOST_KEY_MISMATCH_PREFIX), "{text}");
    assert!(text.contains("h:22"), "{text}");
}
