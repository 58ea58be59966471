use belka::about::{cache_cap, frame_at, frame_name, is_frame_file, FrameCache};
use belka::applescript::{
    alert_script, applescript_escape, confirm_script, is_confirmed, notification_script,
    terminal_script, trash_script,
};
use belka::autolaunch::{
    agent_target, build_plist, is_enabled, join_path, plist_path, temp_file_name, xml_escape,
};
use belka::menu::{
    collect_endpoints_from, find_bundle, header, login, status_view, Address, BusyFlagGuard,
    IconColor, Interface,
};
use belka::tunnel::Status;

// ---------- Launching at login ----------

#[test]
fn build_plist_contains_required_keys_and_escapes() {
    let plist =
        build_plist("/Applications/BelkaTunnel & friends.app/Contents/MacOS/belka_tunnel");
    // Label + bundle id present (anchors automation that greps for this).
    assert!(plist.contains("<string>io.celestialtech.BelkaTunnel</string>"));
    // Path is XML-escaped — '&' must become '&amp;', the literal '&'
    // would otherwise produce a malformed plist that launchctl rejects.
    assert!(
        plist.contains("BelkaTunnel &amp; friends.app"),
        "ampersand not escaped: {plist}"
    );
    assert!(plist.contains("<key>RunAtLoad</key>"));
    // KeepAlive must be the dict form so SuccessfulExit=false lets a
    // clean Quit actually quit. A `<true/>` here would respawn on Quit.
    assert!(
        plist.contains("<key>KeepAlive</key>\n    <dict>"),
        "KeepAlive should be a dict, not a bare true",
    );
    assert!(plist.contains("<key>SuccessfulExit</key>"));
    assert!(plist.contains("<false/>"));
}

#[test]
fn xml_escape_handles_each_metacharacter() {
    assert_eq!(xml_escape("a & b"), "a &amp; b");
    assert_eq!(xml_escape("<tag>"), "&lt;tag&gt;");
    assert_eq!(xml_escape("\""), "&quot;");
    // Apostrophe is not in our escape set because plist string values
    // we generate use double quotes — single quotes are valid bare.
    assert_eq!(xml_escape("don't"), "don't");
}

#[test]
fn agents_have_their_places() {
    let path = plist_path(Some("/Users/me"));
    assert_eq!(
        path.as_deref(),
        Some("/Users/me/Library/LaunchAgents/io.celestialtech.BelkaTunnel.plist")
    );
    assert!(is_enabled(&path, true));
    assert!(!is_enabled(&path, false));
    assert_eq!(plist_path(None), None);
    assert!(!is_enabled(&None, true));
    assert_eq!(join_path("/a/", "b"), "/a/b");
    assert_eq!(join_path("", "b"), "b");
    assert_eq!(temp_file_name("x.plist", 17), ".x.plist.tmp.17");
    assert_eq!(agent_target(501), "gui/501/io.celestialtech.BelkaTunnel");
}

// ---------- Scripts ----------

#[test]
fn applescript_escape_keeps_text_in_its_literal() {
    assert_eq!(applescript_escape("a\"b"), "a\\\"b");
    assert_eq!(applescript_escape("a\\b"), "a\\\\b");
    assert_eq!(applescript_escape("a\nb\rc"), "a\\nb\\rc");
    assert_eq!(applescript_escape("прокси"), "прокси");
}

#[test]
fn scripts_quote_their_text() {
    assert_eq!(
        notification_script("T\"", "B\n"),
        "display notification \"B\\n\" with title \"T\\\"\""
    );
    assert_eq!(
        alert_script("T", "B"),
        "display alert \"T\" message \"B\" as critical buttons {\"OK\"} default button \"OK\""
    );
    assert!(confirm_script("T", "B", "Delete").contains("buttons {\"Cancel\", \"Delete\"}"));
    assert_eq!(
        trash_script("/A/B.app"),
        "tell application \"Finder\" to delete POSIX file \"/A/B.app\""
    );
    assert!(terminal_script("echo \"x\"").contains("do script \"echo \\\"x\\\"\""));
    assert!(is_confirmed("Delete\n", "Delete"));
    assert!(!is_confirmed("Cancel\n", "Delete"));
}

// ---------- The menu ----------

fn v4(name: &str, a: u8, b: u8, c: u8, d: u8) -> Interface {
    Interface { name: name.into(), address: Address::V4(a, b, c, d) }
}

#[test]
fn specific_addr_returns_single_entry_unchanged() {
    let r = collect_endpoints_from("192.168.1.5", 1080, &vec![v4("en0", 1, 2, 3, 4)]);
    assert_eq!(r, vec!["192.168.1.5:1080".to_string()]);
}

#[test]
fn loopback_first_when_listening_on_all() {
    let r = collect_endpoints_from("0.0.0.0", 1081, &vec![]);
    assert_eq!(r, vec!["127.0.0.1:1081  (loopback)".to_string()]);
}

#[test]
fn filters_pseudo_interfaces() {
    let r = collect_endpoints_from(
        "0.0.0.0",
        1080,
        &vec![
            v4("utun0", 10, 0, 0, 1),
            v4("awdl0", 10, 0, 0, 2),
            v4("anpi0", 10, 0, 0, 3),
            v4("ap1", 10, 0, 0, 4),
            v4("bridge100", 10, 0, 0, 5),
            v4("llw0", 10, 0, 0, 6),
            v4("en0", 192, 168, 1, 100),
        ],
    );
    assert_eq!(
        r,
        vec![
            "127.0.0.1:1080  (loopback)".to_string(),
            "192.168.1.100:1080  (en0)".to_string(),
        ]
    );
}

#[test]
fn pseudo_interfaces_are_known_by_lower_case() {
    let r = collect_endpoints_from("::", 1, &vec![v4("UTUN3", 10, 0, 0, 1), v4("En0", 10, 0, 0, 2)]);
    assert_eq!(
        r,
        vec![
            "127.0.0.1:1  (loopback)".to_string(),
            "10.0.0.2:1  (En0)".to_string(),
        ]
    );
}

#[test]
fn drops_loopback_unspecified_multicast() {
    let r = collect_endpoints_from(
        "0.0.0.0",
        1080,
        &vec![
            v4("lo0", 127, 0, 0, 1),
            v4("en0", 0, 0, 0, 0),
            v4("en1", 224, 0, 0, 1),
            v4("en2", 192, 168, 0, 50),
        ],
    );
    assert_eq!(
        r,
        vec![
            "127.0.0.1:1080  (loopback)".to_string(),
            "192.168.0.50:1080  (en2)".to_string(),
        ]
    );
}

#[test]
fn ipv6_addresses_excluded() {
    let v6 = vec![0x20, 0x01, 0x0d, 0xb8, 0, 0, 0, 0, 0, 0, 0, 0, 0, 0, 0, 1];
    let r = collect_endpoints_from(
        "0.0.0.0",
        1080,
        &vec![
            Interface { name: "en0".into(), address: Address::V6(v6) },
            v4("en0", 10, 0, 0, 5),
        ],
    );
    assert_eq!(
        r,
        vec![
            "127.0.0.1:1080  (loopback)".to_string(),
            "10.0.0.5:1080  (en0)".to_string(),
        ]
    );
}

#[test]
fn deduplicates_repeated_ipv4() {
    let r = collect_endpoints_from(
        "0.0.0.0",
        1080,
        &vec![v4("en0", 10, 0, 0, 5), v4("en1", 10, 0, 0, 5)],
    );
    assert_eq!(
        r,
        vec![
            "127.0.0.1:1080  (loopback)".to_string(),
            "10.0.0.5:1080  (en0)".to_string(),
        ]
    );
}

#[test]
fn status_is_shown() {
    let view = status_view(&Status::Connected, "h");
    assert_eq!(view.icon, IconColor::Green);
    assert!(view.checked);
    assert_eq!(view.text, "h");
    let view = status_view(&Status::Disconnected("boom".into()), "h");
    assert_eq!(view.icon, IconColor::Red);
    assert!(!view.checked);
    assert_eq!(view.text, "Disconnected — h");
    assert_eq!(view.tooltip, "БелкаТуннель — h\nboom\n(click to connect)");
    let view = status_view(&Status::Connecting, "h");
    assert_eq!(view.icon, IconColor::Orange);
    let view = status_view(&Status::Disabled, "h");
    assert_eq!(view.icon, IconColor::Gray);
    assert_eq!(view.text, "Off — h");
    assert_eq!(login("u", "h", 22), "u@h:22");
    assert_eq!(header("default", "u", "h", 22), "Profile: default  (u@h:22)");
}

#[test]
fn busy_actions_are_not_started_again() {
    let mut guard = BusyFlagGuard { busy: false };
    assert!(guard.begin());
    assert!(!guard.begin());
    guard.release();
    assert!(guard.begin());
}

#[test]
fn the_innermost_bundle_is_found() {
    let parts = |path: &str| path.split('/').map(String::from).collect::<Vec<String>>();
    assert_eq!(find_bundle(&parts("/A/B.app/Contents/MacOS/b")), Some(2));
    assert_eq!(find_bundle(&parts("/A.app/B.app/b")), Some(2));
    assert_eq!(find_bundle(&parts("/usr/bin/b")), None);
    assert_eq!(find_bundle(&parts("b.app")), None);
}

// ---------- The about window ----------

#[test]
fn frames_are_counted_and_named() {
    assert_eq!(cache_cap(3), 12);
    assert_eq!(cache_cap(100), 100);
    assert_eq!(cache_cap(1000), 256);
    assert!(is_frame_file("a.JPG"));
    assert!(is_frame_file("a.b.jpeg"));
    assert!(!is_frame_file("a.png"));
    assert!(!is_frame_file("jpg"));
    assert_eq!(frame_at(7, 5), 2);
    assert_eq!(frame_name(7), "bt-frame-007");
    assert_eq!(frame_name(1234), "bt-frame-1234");
}

#[test]
fn the_frame_used_longest_ago_goes_first() {
    let mut cache = FrameCache::new(20);
    for i in 0..20 {
        let touch = cache.touch(i);
        assert!(!touch.hit);
        assert_eq!(touch.evicted, None);
    }
    assert!(cache.touch(0).hit);
    let touch = cache.touch(20);
    assert!(!touch.hit);
    assert_eq!(touch.evicted, Some(1));
    assert!(cache.touch(0).hit);
    assert!(!cache.touch(1).hit);
}
