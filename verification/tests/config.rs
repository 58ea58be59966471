use belka::config::{ConfigError, ConfigFile, PortKind, Profile, DEFAULT_MULTIPLIER_BITS};
use belka::config_watcher::{ChangeKind, Coalescer, COALESCE_NANOS};
use belka::editor::{
    key_passphrase, listen_address, listens_on_all, local_address, record_fingerprint,
    typed_passphrase, update_listen_addr, Edit, Editor,
};

#[test]
fn default_config_has_default_profile() {
    let cfg = ConfigFile::standard("/Users/me");
    assert_eq!(cfg.active, "default");
    assert!(cfg.contains_key("default"));
}

#[test]
fn default_profile_is_the_documented_one() {
    let profile = Profile::standard("/Users/me");
    assert_eq!(profile.ssh.host, "proxy.example.com");
    assert_eq!(profile.ssh.port, 22222);
    assert_eq!(profile.ssh.user, "tunneluser");
    assert_eq!(profile.ssh.key_path, "/Users/me/.ssh/id_ed25519");
    assert_eq!(profile.ssh.key_passphrase, None);
    assert_eq!(profile.ssh.keepalive_secs, 30);
    assert_eq!(profile.socks.listen_addr, "0.0.0.0");
    assert_eq!(profile.socks.listen_port, 1080);
    assert!(profile.http.enabled);
    assert_eq!(profile.http.listen_addr, "0.0.0.0");
    assert_eq!(profile.http.listen_port, 8080);
    assert_eq!(profile.reconnect.initial_backoff_secs, 1);
    assert_eq!(profile.reconnect.max_backoff_secs, 60);
    assert_eq!(f64::from_bits(DEFAULT_MULTIPLIER_BITS), 2.0);
    assert_eq!(profile.reconnect.backoff_multiplier_bits, 2.0f64.to_bits());
}

#[test]
fn rejects_dangling_active() {
    let cfg = ConfigFile::from_profiles("ghost".into(), vec![]);
    let err = cfg.validate().unwrap_err();
    assert_eq!(err, ConfigError::Dangling("ghost".into()));
    let err = err.message();
    assert!(err.contains("ghost"), "got: {err}");
    assert_eq!(
        cfg.active_profile().unwrap_err(),
        "active profile 'ghost' missing"
    );
}

#[test]
fn rejects_zero_ports() {
    let zero = |change: fn(&mut Profile)| {
        let mut profile = Profile::standard("/");
        change(&mut profile);
        let cfg = ConfigFile::from_profiles("p".into(), vec![("p".into(), profile)]);
        cfg.validate().unwrap_err()
    };
    assert_eq!(
        zero(|p| p.ssh.port = 0),
        ConfigError::ZeroPort("p".into(), PortKind::Ssh)
    );
    assert_eq!(
        zero(|p| p.socks.listen_port = 0),
        ConfigError::ZeroPort("p".into(), PortKind::Socks)
    );
    let err = zero(|p| p.http.listen_port = 0);
    assert_eq!(err, ConfigError::ZeroPort("p".into(), PortKind::Http));
    assert_eq!(err.message(), "profile 'p': HTTP port must not be 0");
}

#[test]
fn profiles_stand_in_order() {
    let one = Profile::standard("/one");
    let two = Profile::standard("/two");
    let cfg = ConfigFile::from_profiles(
        "b".into(),
        vec![
            ("b".into(), one.duplicate()),
            ("a".into(), one.duplicate()),
            ("é".into(), one.duplicate()),
            ("Z".into(), one.duplicate()),
            ("b".into(), two.duplicate()),
        ],
    );
    let names: Vec<&str> = cfg.profiles.iter().map(|(name, _)| name.as_str()).collect();
    assert_eq!(names, vec!["Z", "a", "b", "é"]);
    // The last of two with one name stays.
    assert_eq!(cfg.get("b"), Some(&two));
    assert_eq!(cfg.active_profile(), Ok(&two));
    assert!(cfg.validate().is_ok());
}

#[test]
fn profiles_are_put_in_and_taken_out() {
    let mut cfg = ConfigFile::standard("/");
    cfg.insert("a".into(), Profile::standard("/a"));
    assert_eq!(cfg.get("a"), Some(&Profile::standard("/a")));
    cfg.insert("a".into(), Profile::standard("/b"));
    assert_eq!(cfg.get("a"), Some(&Profile::standard("/b")));
    assert_eq!(cfg.profiles.len(), 2);
    cfg.remove("a");
    assert_eq!(cfg.get("a"), None);
    assert_eq!(cfg, ConfigFile::standard("/"));
}

// ---------- Editing ----------

#[test]
fn new_profiles_are_shown() {
    let mut editor = Editor::new(ConfigFile::standard("/home"));
    assert!(!editor.can_add("   "));
    assert!(!editor.can_add(" default "));
    assert!(editor.can_add(" work "));
    editor.add_profile(" work ", "/home");
    assert_eq!(editor.selected, "work");
    assert_eq!(editor.file.get("work"), Some(&Profile::standard("/home")));
    assert_eq!(editor.file.active, "default");
    editor.add_profile("work", "/elsewhere");
    assert_eq!(editor.file.get("work"), Some(&Profile::standard("/home")));
}

#[test]
fn copies_get_free_names() {
    let mut editor = Editor::new(ConfigFile::standard("/"));
    editor.duplicate();
    assert_eq!(editor.selected, "default-copy");
    assert_eq!(editor.file.get("default-copy"), editor.file.get("default"));
    editor.selected = "default".into();
    editor.duplicate();
    assert_eq!(editor.selected, "default-copy2");
    assert_eq!(editor.file.profiles.len(), 3);
}

#[test]
fn deleting_the_active_profile_activates_another() {
    let mut editor = Editor::new(ConfigFile::standard("/"));
    assert!(!editor.can_delete());
    editor.add_profile("a", "/");
    editor.add_profile("b", "/");
    assert!(editor.can_delete());
    editor.delete("default");
    assert_eq!(editor.file.active, "a");
    assert_eq!(editor.selected, "a");
    assert!(editor.file.validate().is_ok());
    editor.delete("b");
    assert_eq!(editor.file.active, "a");
    assert!(!editor.can_delete());
}

#[test]
fn the_shown_profile_can_be_activated() {
    let mut editor = Editor::new(ConfigFile::standard("/"));
    assert!(!editor.can_activate());
    editor.add_profile("work", "/");
    assert!(editor.can_activate());
    assert_eq!(editor.activate_label(), "Set “work” as Active");
    editor.activate();
    assert_eq!(editor.file.active, "work");
    assert!(!editor.can_activate());
}

#[test]
fn edits_stay_within_their_limits() {
    let mut editor = Editor::new(ConfigFile::standard("/"));
    editor.apply(Edit::Host("h".into()));
    editor.apply(Edit::Port(0));
    editor.apply(Edit::Keepalive(1));
    editor.apply(Edit::SocksPort(70000));
    editor.apply(Edit::HttpPort(0));
    editor.apply(Edit::Passphrase("".into()));
    editor.apply(Edit::ListenAll(false));
    editor.apply(Edit::MaxBackoff(1000000));
    let profile = editor.file.get("default").unwrap();
    assert_eq!(profile.ssh.host, "h");
    assert_eq!(profile.ssh.port, 1);
    assert_eq!(profile.ssh.keepalive_secs, 5);
    assert_eq!(profile.socks.listen_port, 65535);
    assert_eq!(profile.http.listen_port, 1);
    assert_eq!(profile.ssh.key_passphrase, None);
    assert_eq!(profile.socks.listen_addr, "127.0.0.1");
    assert_eq!(profile.reconnect.max_backoff_secs, 3600);
    assert_eq!(editor.save_fault(), None);
}

#[test]
fn fingerprints_can_be_forgotten() {
    let mut editor = Editor::new(ConfigFile::standard("/"));
    record_fingerprint(&mut editor.file, "nobody", "SHA256:y".into());
    assert_eq!(editor.file, ConfigFile::standard("/"));
    record_fingerprint(&mut editor.file, "default", "SHA256:x".into());
    let panel = editor.panel().unwrap();
    assert!(panel.can_forget);
    assert_eq!(panel.fingerprint, "SHA256:x");
    editor.apply(Edit::ForgetFingerprint);
    let panel = editor.panel().unwrap();
    assert!(!panel.can_forget);
    assert_eq!(panel.fingerprint, "(none recorded — trust-on-first-use mode)");
}

#[test]
fn rows_show_every_profile() {
    let mut editor = Editor::new(ConfigFile::standard("/"));
    editor.add_profile("work", "/");
    let rows = editor.rows();
    assert_eq!(rows.len(), 2);
    assert_eq!(rows[0].name, "default");
    assert!(rows[0].is_active && !rows[0].is_selected);
    assert_eq!(rows[1].name, "work");
    assert!(!rows[1].is_active && rows[1].is_selected);
    assert_eq!(rows[1].login, "tunneluser@proxy.example.com:22222");
}

#[test]
fn invalid_configurations_are_not_saved() {
    let mut editor = Editor::new(ConfigFile::standard("/"));
    editor.file.active = "gone".into();
    assert_eq!(
        editor.save_fault().unwrap(),
        "Invalid config: active profile 'gone' does not exist in profiles list"
    );
}

#[test]
fn empty_passphrases_count_as_none() {
    assert_eq!(typed_passphrase("".into()), None);
    assert_eq!(typed_passphrase("x".into()), Some("x".into()));
    assert_eq!(key_passphrase(&Some("".into())), None);
    assert_eq!(key_passphrase(&Some("x".into())), Some("x".into()));
    assert_eq!(key_passphrase(&None), None);
}

#[test]
fn listen_addresses() {
    assert_eq!(listen_address(true), "0.0.0.0");
    assert_eq!(listen_address(false), "127.0.0.1");
    assert!(listens_on_all("0.0.0.0"));
    assert!(!listens_on_all("192.168.1.5"));
    assert_eq!(local_address("0.0.0.0"), "127.0.0.1");
    assert_eq!(local_address("192.168.1.5"), "192.168.1.5");
    let mut cfg = ConfigFile::standard("/");
    update_listen_addr(&mut cfg, "127.0.0.1");
    assert_eq!(cfg.active_profile().unwrap().socks.listen_addr, "127.0.0.1");
    assert_eq!(cfg.active_profile().unwrap().http.listen_addr, "0.0.0.0");
}

// ---------- Watching ----------

#[test]
fn bursts_of_changes_are_one() {
    let mut coalescer = Coalescer::new();
    assert!(!coalescer.observe(false, ChangeKind::Data, 0));
    assert!(!coalescer.observe(true, ChangeKind::Other, 0));
    assert!(coalescer.observe(true, ChangeKind::Create, 10));
    assert!(!coalescer.observe(true, ChangeKind::Name, 11));
    assert!(!coalescer.observe(true, ChangeKind::Any, 10 + COALESCE_NANOS - 1));
    assert!(coalescer.observe(true, ChangeKind::Data, 10 + COALESCE_NANOS));
    assert_eq!(COALESCE_NANOS, 400 * 1_000_000);
}
