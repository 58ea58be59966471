use belka::firefox::{
    choose_removal, detect, home_bundle_path, install_firefox_policies, mount_point,
    poll_homebrew, FirefoxInfo, Phase, PolicyValue, Probe, Removal, Report, Setting, Wait,
};
use belka::policy_tree::{policy_document, policy_tree, Node};
use serde_json::Value;

fn build_policy(host: &str, port: u16) -> Vec<(String, PolicyValue)> {
    let mut all: Vec<(String, PolicyValue)> = vec![];
    for setting in install_firefox_policies(host, port) {
        let path = setting.path.join("/");
        assert!(all.iter().all(|(p, _)| *p != path), "{path} stands twice");
        all.push((path, setting.value));
    }
    all
}

fn value(policy: &[(String, PolicyValue)], path: &str) -> PolicyValue {
    let found = policy.iter().find(|(p, _)| p == path);
    found.map(|(_, v)| v.clone()).unwrap()
}

fn text(s: &str) -> PolicyValue {
    PolicyValue::Text(s.into())
}

#[test]
fn proxy_is_locked_socks5() {
    let p = build_policy("127.0.0.1", 1080);
    assert_eq!(value(&p, "policies/Proxy/Locked"), PolicyValue::Flag(true));
    assert_eq!(value(&p, "policies/Proxy/Mode"), text("manual"));
    assert_eq!(value(&p, "policies/Proxy/SOCKSVersion"), PolicyValue::Number(5));
    assert_eq!(value(&p, "policies/Proxy/SOCKSProxy"), text("127.0.0.1:1080"));
    assert_eq!(value(&p, "policies/Proxy/UseProxyForDNS"), PolicyValue::Flag(true));
}

#[test]
fn firefox_updater_disabled() {
    let p = build_policy("127.0.0.1", 1080);
    assert_eq!(value(&p, "policies/AppAutoUpdate"), PolicyValue::Flag(false));
    assert_eq!(value(&p, "policies/DisableAppUpdate"), PolicyValue::Flag(true));
    assert_eq!(value(&p, "policies/BackgroundAppUpdate"), PolicyValue::Flag(false));
}

#[test]
fn anti_fingerprinting_layers_locked() {
    let p = build_policy("127.0.0.1", 1080);
    assert_eq!(
        value(&p, "policies/EnableTrackingProtection/Locked"),
        PolicyValue::Flag(true)
    );
    assert_eq!(value(&p, "policies/DNSOverHTTPS/Locked"), PolicyValue::Flag(true));
    assert_eq!(value(&p, "policies/WebRTCIPHandling/Locked"), PolicyValue::Flag(true));
    assert_eq!(
        value(&p, "policies/WebRTCIPHandling/Mode"),
        text("disable_non_proxied_udp")
    );
}

#[test]
fn host_with_special_chars_is_escaped() {
    let host = "a\"b\\c\nd";
    let p = build_policy(host, 9999);
    assert_eq!(
        value(&p, "policies/Proxy/SOCKSProxy"),
        text(&format!("{host}:9999"))
    );
    let v = written_policy(host, 9999);
    let socks = v["policies"]["Proxy"]["SOCKSProxy"].as_str().unwrap();
    assert_eq!(socks, format!("{host}:9999"));
}

// ---------- The policy as a document ----------

fn json_value(value: &PolicyValue) -> Value {
    match value {
        PolicyValue::Flag(flag) => Value::from(*flag),
        PolicyValue::Number(number) => Value::from(*number),
        PolicyValue::Text(text) => Value::from(text.clone()),
        PolicyValue::List(list) => Value::from(list.clone()),
    }
}

fn json_object(list: &[(String, Node)]) -> Value {
    assert!(!list.is_empty());
    let mut object = serde_json::Map::new();
    for (name, node) in list {
        let value = match node {
            Node::Leaf(value) => json_value(value),
            Node::Branch(inner) => json_object(inner),
        };
        assert!(object.insert(name.clone(), value).is_none(), "{name} stands twice");
    }
    Value::Object(object)
}

/// The policy after it was written as JSON and read again.
fn written_policy(host: &str, port: u16) -> Value {
    let text = serde_json::to_string_pretty(&json_object(&policy_document(host, port))).unwrap();
    serde_json::from_str(&text).unwrap()
}

#[test]
fn every_setting_stands_in_the_document() {
    let v = written_policy("127.0.0.1", 1080);
    let settings = install_firefox_policies("127.0.0.1", 1080);
    for setting in &settings {
        let pointer = setting.path.iter().map(|k| format!("/{k}")).collect::<String>();
        assert_eq!(v.pointer(&pointer), Some(&json_value(&setting.value)), "{pointer}");
    }
    let mut leaves = 0;
    let mut open = vec![&v];
    while let Some(value) = open.pop() {
        match value {
            Value::Object(object) => open.extend(object.values()),
            _ => leaves += 1,
        }
    }
    assert_eq!(leaves, settings.len());
}

#[test]
fn policies_are_valid_for_printable_hosts() {
    for host in ["~ !#$%&'()*+,-./", ":;<=>?@[\\]^_`{|}", "proxy", "\"quoted\""] {
        let v = written_policy(host, 65534);
        assert_eq!(v["policies"]["Proxy"]["SOCKSProxy"], format!("{host}:65534"));
        assert_eq!(v["policies"]["Proxy"]["Locked"], true);
        assert_eq!(v["policies"]["DisableAppUpdate"], true);
    }
}

#[test]
fn later_settings_take_the_place_of_colliding_ones() {
    let set = |path: Vec<&'static str>, n: i64| Setting { path, value: PolicyValue::Number(n) };
    let v = json_object(&policy_tree(vec![
        set(vec!["a", "b"], 1),
        set(vec!["c"], 2),
        set(vec!["a", "d"], 3),
        set(vec!["c", "e"], 4),
        set(vec!["a", "b"], 5),
    ]));
    let v = serde_json::to_string(&v).unwrap();
    assert_eq!(v, "{\"a\":{\"b\":5,\"d\":3},\"c\":{\"e\":4}}");
}

#[test]
fn names_are_never_looked_up_outside_the_tunnel() {
    let p = build_policy("127.0.0.1", 1080);
    assert_eq!(value(&p, "policies/DNSOverHTTPS/Enabled"), PolicyValue::Flag(false));
}

#[test]
fn preferences_cannot_be_changed() {
    let p = build_policy("127.0.0.1", 1080);
    let mut seen = 0;
    for (path, _) in &p {
        if path.starts_with("policies/Preferences/") && path.ends_with("/Value") {
            let status = path.replace("/Value", "/Status");
            assert_eq!(value(&p, &status), text("locked"));
            seen += 1;
        }
    }
    assert_eq!(seen, 37);
    for name in ["Geolocation", "Camera", "Microphone", "Notifications"] {
        for field in ["BlockNewRequests", "Locked"] {
            let path = format!("policies/Permissions/{name}/{field}");
            assert_eq!(value(&p, &path), PolicyValue::Flag(true));
        }
    }
}

// ---------- Finding it ----------

fn nothing() -> Probe {
    Probe {
        home: Some("/Users/me".into()),
        system_bundle: false,
        home_bundle: false,
        version_output: None,
        arm_brew: false,
        intel_brew: false,
    }
}

#[test]
fn the_browser_for_all_users_comes_first() {
    let info = detect(&Probe {
        system_bundle: true,
        home_bundle: true,
        version_output: Some("128.0\n".into()),
        intel_brew: true,
        ..nothing()
    });
    assert!(info.installed());
    assert_eq!(info.path.as_deref(), Some("/Applications/Firefox.app"));
    assert_eq!(info.version.as_deref(), Some("128.0"));
    assert_eq!(info.brew.as_deref(), Some("/usr/local/bin/brew"));
    assert_eq!(info.label(), "Firefox 128.0 — /Applications/Firefox.app");
}

#[test]
fn the_browser_of_the_user_is_found() {
    let info = detect(&Probe { home_bundle: true, arm_brew: true, ..nothing() });
    assert_eq!(info.path, Some(home_bundle_path("/Users/me")));
    assert_eq!(info.version, None);
    assert_eq!(info.brew.as_deref(), Some("/opt/homebrew/bin/brew"));
    assert!(info.install_label().starts_with("Reinstall"));
}

#[test]
fn a_missing_browser_has_no_version() {
    let info = detect(&Probe { version_output: Some("128.0".into()), ..nothing() });
    assert!(!info.installed());
    assert_eq!(info.version, None);
    assert_eq!(info.label(), "Firefox is not installed");
    assert!(info.install_label().starts_with("Install"));
}

// ---------- Installing it ----------

fn ran(stdout: &str) -> Report {
    Report::Ran { success: true, stdout: stdout.into(), stderr: "".into() }
}

fn ended_badly(stderr: &str) -> Report {
    Report::Ran { success: false, stdout: "".into(), stderr: stderr.into() }
}

#[test]
fn mount_points_are_read() {
    let out = "/dev/disk4\tGUID_partition_scheme\t\n/dev/disk4s1\tApple_HFS\t/Volumes/Firefox\n";
    assert_eq!(mount_point(out).as_deref(), Some("/Volumes/Firefox"));
    assert_eq!(mount_point("/dev/disk4\tfoo\n"), None);
}

#[test]
fn an_installation_runs_to_its_end() {
    let m = || "/Volumes/Firefox".to_string();
    let phase = Phase::Download.next(&ran(""));
    assert_eq!(phase, Phase::Mount);
    let phase = phase.next(&ran("/dev/disk4s1\tApple_HFS\t/Volumes/Firefox\n"));
    assert_eq!(phase, Phase::LookForApp(m()));
    let phase = phase.next(&Report::Found(true));
    assert_eq!(phase, Phase::LookForOld(m()));
    let phase = phase.next(&Report::Found(true));
    assert_eq!(phase, Phase::RemoveOld(m()));
    let phase = phase.next(&ran(""));
    assert_eq!(phase, Phase::Copy(m()));
    let phase = phase.next(&ran(""));
    assert_eq!(phase, Phase::CleanUp(Some(m()), Ok(())));
    assert_eq!(phase.next(&ran("")), Phase::Done(Ok(())));
}

#[test]
fn failures_are_named_and_cleaned_up() {
    let m = || "/Volumes/Firefox".to_string();
    assert_eq!(
        Phase::Download.next(&ended_badly(" no route \n")),
        Phase::Done(Err("download failed: no route".into()))
    );
    assert_eq!(
        Phase::Mount.next(&ended_badly("busy")),
        Phase::CleanUp(None, Err("hdiutil attach failed: busy".into()))
    );
    assert_eq!(
        Phase::Mount.next(&ran("nothing here")),
        Phase::Done(Err("could not parse mount point from hdiutil".into()))
    );
    assert_eq!(
        Phase::LookForApp(m()).next(&Report::Found(false)),
        Phase::CleanUp(
            Some(m()),
            Err("Firefox.app missing inside DMG at /Volumes/Firefox/Firefox.app".into())
        )
    );
    // A mount point that ends with a slash gets no second one.
    assert_eq!(
        Phase::LookForApp("/Volumes/F/".into()).next(&Report::Found(false)),
        Phase::CleanUp(
            Some("/Volumes/F/".into()),
            Err("Firefox.app missing inside DMG at /Volumes/F/Firefox.app".into())
        )
    );
    assert_eq!(
        Phase::LookForOld(m()).next(&Report::Found(false)),
        Phase::Copy(m())
    );
    let stuck = Phase::RemoveOld(m()).next(&Report::Failed("in use".into()));
    assert!(matches!(stuck, Phase::CleanUp(Some(_), Err(e)) if e.contains("in use")));
    let denied = Phase::Copy(m()).next(&ended_badly(""));
    assert!(matches!(denied, Phase::CleanUp(Some(_), Err(e)) if e.contains("Permission denied")));
    let unstarted = Phase::Copy(m()).next(&Report::Failed("no ditto".into()));
    assert!(matches!(unstarted, Phase::CleanUp(Some(_), Err(e)) if e.contains("no ditto")));
}

#[test]
fn removal_goes_the_way_it_came() {
    let mut info = FirefoxInfo { path: None, version: None, brew: Some("/b/brew".into()) };
    assert_eq!(choose_removal(&info, true), Removal::NotInstalled);
    info.path = Some("/Applications/Firefox.app".into());
    assert_eq!(choose_removal(&info, true), Removal::Brew("/b/brew".into()));
    assert!(matches!(choose_removal(&info, false), Removal::Trash(s) if s.contains("Firefox.app")));
    info.brew = None;
    assert!(matches!(choose_removal(&info, true), Removal::Trash(_)));
}

#[test]
fn homebrew_is_waited_for() {
    assert_eq!(poll_homebrew(true, 0), Wait::Ready);
    assert_eq!(poll_homebrew(false, 29 * 60), Wait::More);
    assert_eq!(poll_homebrew(false, 30 * 60), Wait::TimedOut);
}
