use belka::base64::base64_encode;
use belka::pfusers::forms::{
    connected_text, count_keys, is_confirmed, summary, switch_privilege, AddForm, ConnState,
    EditBuffer, Operation,
};
use belka::pfusers::pfsh::{
    add_user_body, delete_user_body, list_users_php, php_string, php_string_array, script_result,
    set_password_body, truncate, update_user_body, wrap_for_pfsh, ScriptError, ERR_SENTINEL,
    OK_SENTINEL,
};
use belka::pfusers::users::{canonical_privileges, default_scope, PfUser};

fn olga() -> PfUser {
    PfUser {
        name: "olga".into(),
        descr: "".into(),
        uid: 2000,
        scope: "user".into(),
        expires: None,
        disabled: false,
        groups: vec![],
        priv_list: vec![],
        authorized_keys: "".into(),
        has_bcrypt: false,
        has_sha512: false,
        has_legacy_md5: false,
    }
}

#[test]
fn shell_access_detection() {
    let mut u = olga();
    assert!(!u.has_shell_access());
    u.priv_list.push("user-shell-access".into());
    assert!(u.has_shell_access());
    u.priv_list.clear();
    u.priv_list.push("page-all".into());
    assert!(u.has_shell_access(), "page-all also implies shell");
}

#[test]
fn key_count_counts_lines() {
    let u = PfUser {
        name: "x".into(),
        uid: 1,
        authorized_keys: "ssh-ed25519 AAA…\n\nssh-rsa BBB…\n  \nssh-ecdsa CCC…\n".into(),
        ..olga()
    };
    assert_eq!(u.key_count(), 3);
}

#[test]
fn legacy_hashes_are_no_passwords() {
    assert!(!olga().has_password());
    assert!(PfUser { has_bcrypt: true, ..olga() }.has_password());
    assert!(PfUser { has_sha512: true, ..olga() }.has_password());
    assert!(!PfUser { has_legacy_md5: true, ..olga() }.has_password());
    assert!(PfUser { has_sha512: true, has_legacy_md5: true, ..olga() }.has_password());
    assert_eq!(default_scope(), "user");
    assert!(canonical_privileges().iter().any(|(name, _)| *name == "user-ssh-tunnel"));
}

// ---------- Scripts ----------

#[test]
fn php_string_escapes_dangerous_metacharacters() {
    // No expansion: $foo must reach PHP as a literal, not as a variable.
    assert_eq!(php_string("$foo"), "\"\\$foo\"");
    // Backslash + quote are escaped.
    assert_eq!(php_string("a\"b\\c"), "\"a\\\"b\\\\c\"");
    // Newlines become \n so the literal stays on one line.
    assert_eq!(php_string("line1\nline2"), "\"line1\\nline2\"");
    // Empty case.
    assert_eq!(php_string(""), "\"\"");
}

#[test]
fn php_string_array_round_trip_shape() {
    let arr = php_string_array(&["user-shell-access".to_string(), "page-all".to_string()]);
    assert_eq!(arr, "[\"user-shell-access\", \"page-all\"]");
    let empty = php_string_array(&[]);
    assert_eq!(empty, "[]");
}

#[test]
fn base64_matches_python_reference() {
    // Cross-check against known base64 outputs.
    assert_eq!(base64_encode(b""), "");
    assert_eq!(base64_encode(b"f"), "Zg==");
    assert_eq!(base64_encode(b"fo"), "Zm8=");
    assert_eq!(base64_encode(b"foo"), "Zm9v");
    assert_eq!(base64_encode(b"foob"), "Zm9vYg==");
    assert_eq!(base64_encode(b"fooba"), "Zm9vYmE=");
    assert_eq!(base64_encode(b"foobar"), "Zm9vYmFy");
    // A typical authorized_keys line.
    let ssh = "ssh-ed25519 AAAA test\n";
    // Decoding back via PHP base64_decode would give us 'ssh-ed25519 AAAA test\n'.
    let enc = base64_encode(ssh.as_bytes());
    assert!(
        !enc.contains('\n'),
        "base64 output should never have newlines"
    );
    assert!(enc.ends_with('='), "should be padded");
}

#[test]
fn wrap_for_pfsh_includes_try_catch_and_sentinels() {
    let cmd = wrap_for_pfsh("echo \"x\";");
    assert!(cmd.contains("require_once(\"auth.inc\")"));
    assert!(cmd.contains("try {"));
    assert!(cmd.contains("} catch (Throwable $e) {"));
    assert!(cmd.contains(ERR_SENTINEL), "missing ERR_SENTINEL hook");
    assert!(cmd.contains("exec\nexit\n"));
    // Heredoc EOF marker should be quoted — otherwise the remote shell
    // would expand $variables in the PHP body before pfSsh.php sees it.
    assert!(cmd.contains("<<'EOF'"));
}

#[test]
fn list_users_template_is_well_formed_php() {
    let php = list_users_php();
    assert!(php.contains("foreach ($config[\"system\"][\"user\"]"));
    assert!(php.contains("base64_decode"));
    assert!(php.contains("json_encode($out)"));
    assert!(php.contains(OK_SENTINEL));
}

#[test]
fn bodies_hold_what_they_were_given() {
    let privs = ["user-ssh-tunnel".to_string()];
    let body = add_user_body("n\"", "d", "p$w", &privs, &[], "key");
    assert!(body.contains("\"n\\\"\""), "{body}");
    assert!(body.contains("\"p\\$w\""), "{body}");
    assert!(body.contains("[\"user-ssh-tunnel\"]"), "{body}");
    let body = update_user_body("n", "d", &privs, &[], "key", true);
    assert!(body.contains("[\"user-ssh-tunnel\"]"), "{body}");
    assert!(delete_user_body("n").contains("\"n\""));
    assert!(set_password_body("n", "pw").contains("\"pw\""));
}

#[test]
fn results_stand_behind_the_sentinel() {
    let out = format!("noise\nx{OK_SENTINEL}[1, 2]\nmore");
    assert_eq!(script_result(&out, ""), Ok("[1, 2]".to_string()));
    let err = format!("{ERR_SENTINEL}bad name\n");
    let failed = script_result("", &err).unwrap_err();
    assert!(matches!(failed, ScriptError::Reported(_)));
    assert!(failed.message().contains("bad name"), "{}", failed.message());
    let silent = script_result("nothing", " parse error\n").unwrap_err();
    assert!(matches!(silent, ScriptError::NoResult(_)));
    assert_eq!(
        silent.message(),
        "pfSsh.php produced no OK sentinel (stderr: parse error)"
    );
    let silent = script_result("nothing", " ").unwrap_err();
    assert_eq!(silent.message(), "pfSsh.php produced no OK sentinel");
}

#[test]
fn long_text_is_cut() {
    assert_eq!(truncate("short", 40), "short");
    assert_eq!(truncate("abcdef", 3), "abc…");
}

// ---------- Forms ----------

#[test]
fn forms_need_a_name_and_a_password() {
    let mut form = AddForm::new();
    assert!(!form.can_create());
    form.name = "  x ".into();
    assert!(!form.can_create());
    form.password = "pw".into();
    assert!(form.can_create());
    assert_eq!(form.user_name(), "x");
    assert!(form.privileges().is_empty());
    form.shell_access = true;
    form.web_access = true;
    assert_eq!(
        form.privileges(),
        vec!["user-shell-access".to_string(), "page-all".to_string()]
    );
    assert_eq!(form.submitted().name, "x");
}

#[test]
fn edited_users_are_sent_whole() {
    let mut user = olga();
    user.descr = "d".into();
    user.groups = vec!["all".into()];
    let mut buffer = EditBuffer::of_user(&user);
    buffer.disabled = true;
    let req = buffer.request();
    assert_eq!(req.name, "olga");
    assert_eq!(req.descr, Some("d"));
    assert_eq!(req.disabled, Some(true));
    assert_eq!(req.groups, Some(vec!["all".to_string()]));
}

#[test]
fn privileges_are_switched() {
    let mut list = vec!["a".to_string(), "b".to_string(), "a".to_string()];
    switch_privilege(&mut list, "c", true);
    switch_privilege(&mut list, "b", true);
    assert_eq!(list.join(" "), "a b a c");
    switch_privilege(&mut list, "a", false);
    switch_privilege(&mut list, "z", false);
    assert_eq!(list.join(" "), "b c");
}

#[test]
fn what_is_said() {
    assert_eq!(ConnState::Idle.label(), "Idle");
    assert_eq!(ConnState::Connecting.label(), "Connecting…");
    assert_eq!(ConnState::Connected.label(), "Connected");
    assert_eq!(ConnState::Failed("no".into()).label(), "Disconnected — no");
    let label = ConnState::Failed("x".repeat(50)).label();
    assert_eq!(label, format!("Disconnected — {}…", "x".repeat(40)));
    assert_eq!(connected_text(&None), "Connected.");
    assert_eq!(connected_text(&Some("F".into())), "Connected. Recorded host key F");
    assert_eq!(Operation::Save.pending("n"), "Saving n…");
    assert_eq!(Operation::Create.done("n"), "Created n.");
    assert_eq!(Operation::Delete.failed("why"), "Delete failed: why");
    assert_eq!(count_keys("a\n\nb"), 2);
    assert!(is_confirmed("olga", "olga"));
    assert!(!is_confirmed("olg", "olga"));
    assert_eq!(summary(&olga()), "uid 2000 · 0 keys");
    let user = PfUser { descr: "D".into(), authorized_keys: "k".into(), ..olga() };
    assert_eq!(summary(&user), "D · uid 2000 · 1 keys");
}
