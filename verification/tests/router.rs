use belka::base64::{base64_decode, base64_encode};
use belka::hostkey::fingerprint_of;
use belka::pfusers::commands::{
    exec_check, pw_lock, pw_useradd, pw_userdel, pw_usermod_shell, read_config_xml,
    restore_command, snapshot_command, snapshot_path, write_authorized_keys, write_config_xml,
    Command, COUNT_COMMAND, READ_COMMAND, WRITE_COMMAND,
};
use belka::pfusers::config::AppConfig;
use belka::pfusers::document::Doc;
use belka::pfusers::errors::PfError;
use belka::pfusers::operations::{
    add_user, add_user_with_hash, delete_user, set_password, set_password_with_hash, update_user,
    AddUserReq, Check, Plan, UpdateUserReq,
};
use belka::pfusers::pfsense::{derive_shell, list_users, validate_username};
use belka::pfusers::safety::{verify_with_pfsense_parser, Phase, Reply, Request, SafeWrite};
use belka::pfusers::shell::shell_escape;
use belka::pfusers::ssh::{rejected, ExecEvent, ExecOutput, HostKeyVerifier};
use russh::keys::key::KeyPair;
use russh::keys::PublicKeyBase64;

const XML: &str = r#"<?xml version="1.0"?>
<pfsense>
  <system>
    <nextuid>2001</nextuid>
    <user>
      <scope>system</scope>
      <name>admin</name>
      <descr>System Administrator</descr>
      <uid>0</uid>
      <priv>page-all</priv>
    </user>
    <user>
      <scope>user</scope>
      <name>olga</name>
      <descr>Olga</descr>
      <uid>2000</uid>
      <authorizedkeys>c3NoLWVkMjU1MTkgQUFBQQ==</authorizedkeys>
      <sha512-hash>old</sha512-hash>
      <priv>user-shell-access</priv>
    </user>
    <group>
      <name>all</name>
      <member>0</member>
      <member>2000</member>
    </group>
    <group>
      <name>admins</name>
      <member>0</member>
    </group>
  </system>
</pfsense>"#;

fn error_of(res: Result<Plan, PfError>) -> PfError {
    res.err().unwrap()
}

fn groups(xml: &str, uid: u32) -> Vec<String> {
    let all = Doc::parse(xml).unwrap().groups_by_uid().unwrap();
    all.get(&uid).cloned().unwrap_or_default()
}

fn lines(plan: &Plan) -> Vec<String> {
    plan.commands
        .iter()
        .map(|command| match command {
            Command::Required(line) => line.clone(),
            Command::Ignored(line) => format!("[{line}]"),
            Command::Keys { line, keys } => format!("{line} <<< {keys}"),
        })
        .collect()
}

// ---------- Names, shells and encodings ----------

#[test]
fn derive_shell_priv_ladder() {
    assert_eq!(derive_shell(&[]), "/sbin/nologin");
    assert_eq!(
        derive_shell(&["user-ssh-tunnel".into()]),
        "/usr/local/sbin/ssh_tunnel_shell"
    );
    assert_eq!(derive_shell(&["user-shell-access".into()]), "/bin/tcsh");
    assert_eq!(derive_shell(&["page-all".into()]), "/bin/tcsh");
}

#[test]
fn derive_shell_takes_the_strongest() {
    assert_eq!(
        derive_shell(&["user-copy-files".into(), "user-copy-files-chroot".into()]),
        "/usr/local/sbin/scponlyc"
    );
    assert_eq!(
        derive_shell(&["user-ssh-tunnel".into(), "user-copy-files".into()]),
        "/usr/local/bin/scponly"
    );
}

#[test]
fn shell_escape_handles_single_quote() {
    assert_eq!(shell_escape("simple"), "'simple'");
    assert_eq!(shell_escape("with space"), "'with space'");
    assert_eq!(shell_escape("it's"), "'it'\\''s'");
    // Adversarial: shell metacharacters all pass through.
    assert_eq!(shell_escape("`$()&;|"), "'`$()&;|'");
}

#[test]
fn validate_username_rejects_special_chars() {
    assert!(validate_username("olga").is_ok());
    assert!(validate_username("user-name.1").is_ok());
    assert!(validate_username("bad name").is_err()); // space
    assert!(validate_username("bad$name").is_err()); // shell meta
    assert!(validate_username("-leadingdash").is_err());
}

#[test]
fn bad_names_are_quoted() {
    assert_eq!(validate_username("-x").unwrap_err(), PfError::LeadingDash);
    let e = validate_username("a\"b").unwrap_err();
    assert_eq!(e, PfError::BadUsername("a\"b".into()));
    assert!(e.message().ends_with(": \"a\\\"b\""), "{}", e.message());
    assert!(validate_username("пользователь").is_err());
}

#[test]
fn base64_encode_round_trip() {
    for input in [b"" as &[u8], b"a", b"ab", b"abc", b"abcd", b"foobar"] {
        let enc = base64_encode(input);
        let dec = base64_decode(&enc);
        assert_eq!(dec, input.to_vec(), "round-trip failed for {input:?}");
    }
    // Known reference.
    assert_eq!(base64_encode(b"foo"), "Zm9v");
    assert_eq!(base64_decode("Zm9v"), b"foo".to_vec());
}

// ---------- Listing ----------

#[test]
fn users_are_listed_with_their_groups() {
    let users = list_users(XML).unwrap();
    assert_eq!(users.len(), 2);
    assert_eq!(users[0].groups, vec!["all".to_string(), "admins".to_string()]);
    assert!(!users[0].has_password());
    assert_eq!(users[1].uid, 2000);
    assert_eq!(users[1].authorized_keys, "ssh-ed25519 AAAA");
    assert!(users[1].has_sha512);
    assert!(users[1].has_password());
    assert_eq!(users[1].groups, vec!["all".to_string()]);
}

#[test]
fn keys_that_are_no_text_are_shown_with_marks() {
    let xml = XML.replace("c3NoLWVkMjU1MTkgQUFBQQ==", &base64_encode(b"k\xffy"));
    let users = list_users(&xml).unwrap();
    assert_eq!(users[1].authorized_keys, "k\u{fffd}y");
}

// ---------- Adding ----------

fn newguy<'a>() -> AddUserReq<'a> {
    AddUserReq {
        name: "newguy",
        descr: "New Guy",
        password: "secret",
        priv_list: vec!["user-ssh-tunnel".into()],
        groups: vec!["admins".into(), "all".into()],
        authorized_keys: "ssh-ed25519 BBBB",
    }
}

#[test]
fn added_users_are_planned() {
    let plan = add_user_with_hash(XML, &newguy(), "$2y$10$hash".into()).unwrap();
    let doc = Doc::parse(&plan.new_xml).unwrap();
    let row = doc.find_user("newguy").unwrap();
    assert_eq!(row.uid, 2001);
    assert_eq!(row.scope, "user");
    assert_eq!(row.bcrypt_hash.as_deref(), Some("$2y$10$hash"));
    assert_eq!(base64_decode(&row.authorized_keys_b64), b"ssh-ed25519 BBBB");
    assert_eq!(doc.next_uid().unwrap(), 2002);
    assert_eq!(
        groups(&plan.new_xml, 2001),
        vec!["all".to_string(), "admins".to_string()]
    );
    assert_eq!(groups(&plan.new_xml, 2000), groups(XML, 2000));
    assert!(plan.check.run(&plan.new_xml).is_ok());
    assert_eq!(plan.check.run(XML).unwrap_err(), PfError::NewUserMissing);
    assert_eq!(
        lines(&plan),
        vec![
            pw_useradd("newguy", 2001, "/usr/local/sbin/ssh_tunnel_shell", "New Guy"),
            format!("{} <<< ssh-ed25519 BBBB", write_authorized_keys("newguy")),
        ]
    );
}

#[test]
fn passwords_are_hashed_with_bcrypt() {
    let plan = add_user(XML, &newguy()).unwrap();
    let row = Doc::parse(&plan.new_xml).unwrap().find_user("newguy").unwrap();
    let hash = row.bcrypt_hash.unwrap();
    assert!(hash.starts_with("$2y$10$"), "{hash}");
    assert_eq!(hash.len(), 60);
    assert_eq!(bcrypt::verify("secret", &hash).ok(), Some(true));
    assert_eq!(bcrypt::verify("other", &hash).ok(), Some(false));
}

#[test]
fn refused_additions() {
    let hash = || "$2y$10$hash".to_string();
    let mut req = newguy();
    req.name = "";
    assert_eq!(error_of(add_user_with_hash(XML, &req, hash())), PfError::NameRequired);
    let mut req = newguy();
    req.password = "";
    assert_eq!(error_of(add_user_with_hash(XML, &req, hash())), PfError::PasswordRequired);
    let mut req = newguy();
    req.name = "olga";
    assert_eq!(
        error_of(add_user_with_hash(XML, &req, hash())),
        PfError::UserExists("olga".into())
    );
    let mut req = newguy();
    req.groups = vec!["ghosts".into()];
    assert_eq!(
        error_of(add_user_with_hash(XML, &req, hash())),
        PfError::GroupNotFound("ghosts".into())
    );
    let full = XML.replace("2001", "4294967295");
    assert_eq!(
        error_of(add_user_with_hash(&full, &newguy(), hash())),
        PfError::UidsExhausted
    );
}

// ---------- Changing ----------

fn nothing_changed<'a>() -> UpdateUserReq<'a> {
    UpdateUserReq {
        name: "olga",
        descr: None,
        priv_list: None,
        authorized_keys: None,
        disabled: None,
        groups: None,
    }
}

#[test]
fn changed_users_are_planned() {
    let req = UpdateUserReq {
        descr: Some("Olga T."),
        priv_list: Some(vec!["user-ssh-tunnel".into()]),
        authorized_keys: Some("k"),
        disabled: Some(true),
        groups: Some(vec!["admins".into()]),
        ..nothing_changed()
    };
    let plan = update_user(XML, &req).unwrap();
    let row = Doc::parse(&plan.new_xml).unwrap().find_user("olga").unwrap();
    assert_eq!(row.descr, "Olga T.");
    assert_eq!(row.priv_list, vec!["user-ssh-tunnel".to_string()]);
    assert_eq!(row.authorized_keys_b64, base64_encode(b"k"));
    assert!(row.disabled);
    assert_eq!(row.sha512_hash.as_deref(), Some("old"));
    assert_eq!(groups(&plan.new_xml, 2000), vec!["admins".to_string()]);
    assert_eq!(groups(&plan.new_xml, 0), groups(XML, 0));
    assert!(plan.check.run(&plan.new_xml).is_ok());
    assert_eq!(plan.check.run(XML).unwrap_err(), PfError::DescrChanged);
    assert_eq!(
        lines(&plan),
        vec![
            pw_usermod_shell("olga", "/usr/local/sbin/ssh_tunnel_shell"),
            format!("{} <<< k", write_authorized_keys("olga")),
            format!("[{}]", pw_lock("olga", true)),
        ]
    );
}

#[test]
fn groups_are_set_exactly() {
    let with = |list: Vec<String>| {
        let req = UpdateUserReq { groups: Some(list), ..nothing_changed() };
        update_user(XML, &req).unwrap().new_xml
    };
    assert_eq!(groups(XML, 2000), vec!["all".to_string()]);
    assert!(groups(&with(vec![]), 2000).is_empty());
    let both = with(vec!["admins".into(), "all".into()]);
    assert_eq!(groups(&both, 2000), vec!["all".to_string(), "admins".to_string()]);
    assert_eq!(groups(&both, 0), groups(XML, 0));
}

#[test]
fn groups_are_set_beside_stray_members() {
    let stray = XML.replace("<uid>2000</uid>", "<uid>2000</uid>\n      <member>2000</member>");
    let with = stray.replace("</system>", "</system><spare><list><member>2000</member></list></spare>");
    let req = UpdateUserReq { groups: Some(vec!["admins".into()]), ..nothing_changed() };
    let plan = update_user(&with, &req).unwrap();
    assert_eq!(groups(&plan.new_xml, 2000), vec!["admins".to_string()]);
    assert_eq!(groups(&plan.new_xml, 0), groups(XML, 0));
    assert!(plan.new_xml.contains("<spare><list></list></spare>"));
    assert_eq!(Doc::parse(&plan.new_xml).unwrap().next_uid().unwrap(), 2001);
    assert!(plan.check.run(&plan.new_xml).is_ok());
}

#[test]
fn groups_that_are_not_given_stay() {
    let req = UpdateUserReq {
        priv_list: Some(vec!["user-ssh-tunnel".into()]),
        ..nothing_changed()
    };
    let plan = update_user(XML, &req).unwrap();
    assert_eq!(groups(&plan.new_xml, 2000), groups(XML, 2000));
    assert_eq!(plan.check.run(XML).unwrap_err(), PfError::PrivChanged);
    assert_eq!(plan.commands.len(), 1);
}

#[test]
fn refused_changes() {
    let mut req = nothing_changed();
    req.name = "";
    assert_eq!(error_of(update_user(XML, &req)), PfError::NameRequired);
    req.name = "ghost";
    assert_eq!(error_of(update_user(XML, &req)), PfError::UserNotFound("ghost".into()));
    let check = Check::Updated { name: "ghost".into(), descr: None, priv_list: None };
    assert_eq!(check.run(XML).unwrap_err(), PfError::UserMissingAfterWrite);
}

// ---------- Deleting ----------

#[test]
fn deleted_users_are_planned() {
    let plan = delete_user(XML, "olga").unwrap();
    assert!(Doc::parse(&plan.new_xml).unwrap().find_user("olga").is_none());
    assert!(groups(&plan.new_xml, 2000).is_empty());
    assert_eq!(groups(&plan.new_xml, 0), groups(XML, 0));
    assert!(plan.check.run(&plan.new_xml).is_ok());
    assert_eq!(plan.check.run(XML).unwrap_err(), PfError::StillPresent);
    assert_eq!(lines(&plan), vec![format!("[{}]", pw_userdel("olga"))]);
}

#[test]
fn refused_deletions() {
    assert_eq!(error_of(delete_user(XML, "")), PfError::NameRequired);
    assert_eq!(error_of(delete_user(XML, "ghost")), PfError::UserNotFound("ghost".into()));
    assert_eq!(error_of(delete_user(XML, "admin")), PfError::ProtectedUser);
}

// ---------- Passwords ----------

#[test]
fn new_passwords_drop_the_old_hashes() {
    let plan = set_password_with_hash(XML, "olga", "pw", "$2y$10$new".into()).unwrap();
    let row = Doc::parse(&plan.new_xml).unwrap().find_user("olga").unwrap();
    assert_eq!(row.bcrypt_hash.as_deref(), Some("$2y$10$new"));
    assert_eq!(row.sha512_hash, None);
    assert!(plan.check.run(&plan.new_xml).is_ok());
    assert_eq!(plan.check.run(XML).unwrap_err(), PfError::HashMissing);
    assert!(plan.commands.is_empty());

    let plan = set_password(XML, "olga", "pw").unwrap();
    let row = Doc::parse(&plan.new_xml).unwrap().find_user("olga").unwrap();
    assert_eq!(bcrypt::verify("pw", &row.bcrypt_hash.unwrap()).ok(), Some(true));
}

#[test]
fn refused_passwords() {
    assert_eq!(error_of(set_password(XML, "olga", "")), PfError::PasswordRequired);
    assert_eq!(
        error_of(set_password(XML, "ghost", "pw")),
        PfError::UserNotFound("ghost".into())
    );
    let check = Check::PasswordSet { name: "ghost".into() };
    assert_eq!(check.run(XML).unwrap_err(), PfError::UserMissing);
}

#[test]
fn checks_of_an_addition() {
    let stale = Check::Added { name: "olga".into(), uid: 2001 };
    assert_eq!(stale.run(XML).unwrap_err(), PfError::UidMismatch(2000, 2001));
    let stale = Check::Added { name: "olga".into(), uid: 2000 };
    assert!(stale.run(XML).is_ok());
    let old = XML.replace("<nextuid>2001</nextuid>", "<nextuid>2000</nextuid>");
    assert_eq!(stale.run(&old).unwrap_err(), PfError::NextUidStale);
}

// ---------- Commands ----------

#[test]
fn commands_quote_what_they_are_given() {
    assert_eq!(snapshot_path(17), "/cf/conf/backup/config-17-pfusers.xml");
    assert_eq!(snapshot_command("/p"), "/bin/cp /cf/conf/config.xml /p");
    assert_eq!(restore_command("/p"), "/bin/cp /p /cf/conf/config.xml");
    assert_eq!(
        pw_useradd("a", 7, "/bin/tcsh", "it's"),
        "/usr/sbin/pw useradd -n 'a' -u 7 -m -s '/bin/tcsh' -c 'it'\\''s' -G ''"
    );
    assert_eq!(pw_lock("a", true), "/usr/sbin/pw lock -n 'a'");
    assert_eq!(pw_lock("a", false), "/usr/sbin/pw unlock -n 'a'");
    assert_eq!(pw_userdel("a"), "/usr/sbin/pw userdel -n 'a' -r");
    assert_eq!(
        write_authorized_keys("a"),
        "/bin/mkdir -p /home/a/.ssh && /bin/chmod 700 /home/a/.ssh && /bin/cat > \
         /home/a/.ssh/authorized_keys && /bin/chmod 600 /home/a/.ssh/authorized_keys && \
         /usr/sbin/chown -R 'a':'a' /home/a/.ssh"
    );
}

#[test]
fn commands_fail_by_what_they_print() {
    assert_eq!(read_config_xml("x".into(), " \n").unwrap(), "x");
    assert_eq!(
        read_config_xml("x".into(), "oops\n").unwrap_err(),
        PfError::ReadReported("oops".into())
    );
    assert_eq!(write_config_xml("oops").unwrap_err().message(), "writing config.xml: oops");
    assert!(write_config_xml("").is_ok());
    assert_eq!(exec_check("cmd", "oops").unwrap_err().message(), "`cmd` reported: oops");
    let keys = Command::Keys { line: "l".into(), keys: "k".into() };
    assert_eq!(keys.outcome("oops").unwrap_err().message(), "writing authorized_keys: oops");
    assert!(keys.outcome("  ").is_ok());
    assert!(Command::Ignored("l".into()).outcome("oops").is_ok());
    assert_eq!(
        Command::Required("l".into()).outcome("oops").unwrap_err(),
        PfError::CommandReported("l".into(), "oops".into())
    );
}

// ---------- Writing safely ----------

fn printed(stdout: &str) -> Reply {
    Reply::Output { stdout: stdout.into(), stderr: "".into() }
}

fn complained(stderr: &str) -> Reply {
    Reply::Output { stdout: "".into(), stderr: stderr.into() }
}

fn run_line(write: &SafeWrite) -> String {
    match write.request() {
        Request::Run(line) => line,
        Request::Feed(line, input) => format!("{line} <<< {input}"),
        Request::Nothing => "nothing".into(),
    }
}

fn deletion() -> SafeWrite {
    let plan = delete_user(XML, "olga").unwrap();
    SafeWrite::new(XML.into(), plan.new_xml, plan.check, "/snap".into())
}

fn result(write: SafeWrite) -> Result<(), String> {
    match write.phase {
        Phase::Done(res) => res,
        _ => panic!("not done"),
    }
}

#[test]
fn a_write_runs_to_its_end() {
    let mut write = deletion();
    let new_xml = write.new_xml.clone();
    assert_eq!(run_line(&write), snapshot_command("/snap"));
    write.step(printed(""));
    assert_eq!(run_line(&write), format!("{WRITE_COMMAND} <<< {new_xml}"));
    write.step(printed(""));
    assert_eq!(run_line(&write), READ_COMMAND);
    write.step(printed(&new_xml));
    assert_eq!(run_line(&write), COUNT_COMMAND);
    write.step(printed("1\n"));
    assert_eq!(run_line(&write), "nothing");
    assert_eq!(result(write), Ok(()));
}

#[test]
fn without_a_snapshot_nothing_is_written() {
    let mut write = deletion();
    write.step(complained("disk full"));
    assert_eq!(
        result(write).unwrap_err(),
        "creating config snapshot: `/bin/cp /cf/conf/config.xml /snap` reported: disk full"
    );
}

#[test]
fn failed_writes_are_rolled_back() {
    let mut write = deletion();
    write.step(printed(""));
    write.step(Reply::Failed("connection lost".into()));
    assert_eq!(run_line(&write), restore_command("/snap"));
    write.step(printed(""));
    let text = result(write).unwrap_err();
    assert!(text.contains("connection lost"), "{text}");
}

#[test]
fn wrong_documents_are_rolled_back() {
    let mut write = deletion();
    write.step(printed(""));
    write.step(printed(""));
    write.step(printed(XML));
    assert_eq!(run_line(&write), restore_command("/snap"));
    write.step(printed(""));
    assert_eq!(
        result(write).unwrap_err(),
        "verification failed; rolled back from /snap: post-write check: user still present after delete"
    );
}

#[test]
fn wrong_counts_are_rolled_back() {
    let mut write = deletion();
    let new_xml = write.new_xml.clone();
    write.step(printed(""));
    write.step(printed(""));
    write.step(printed(&new_xml));
    write.step(printed("2"));
    assert_eq!(run_line(&write), restore_command("/snap"));
    write.step(complained("no such file"));
    let text = result(write).unwrap_err();
    assert!(text.contains("pfSense parser saw 2 users; our parser saw 1"), "{text}");
    assert!(text.contains("ROLLBACK ALSO FAILED"), "{text}");
    assert!(text.contains("/snap"), "{text}");
}

#[test]
fn counts_are_compared() {
    assert!(verify_with_pfsense_parser(" 3\n", 2, 3).is_ok());
    assert_eq!(
        verify_with_pfsense_parser("-1", 2, 3).unwrap_err(),
        PfError::CountMismatch(-1, 3, 2)
    );
    assert_eq!(
        verify_with_pfsense_parser("PHP Warning", 2, 3).unwrap_err(),
        PfError::NonNumericCount("PHP Warning".into())
    );
}

// ---------- The connection ----------

#[test]
fn defaults_match_pashas_setup() {
    let c = AppConfig::standard("/Users/me");
    assert_eq!(c.ssh.host, "192.168.1.1");
    assert_eq!(c.ssh.port, 22222);
    assert_eq!(c.ssh.user, "admin");
}

#[test]
fn recorded_keys_are_kept() {
    let mut c = AppConfig::standard("/Users/me");
    assert_eq!(c.ssh.host_key_fingerprint, None);
    c.record("SHA256:x".into());
    assert_eq!(c.ssh.host_key_fingerprint.as_deref(), Some("SHA256:x"));
}

fn public_key() -> Vec<u8> {
    let pair = KeyPair::generate_ed25519().expect("keygen");
    pair.clone_public_key().unwrap().public_key_bytes()
}

#[test]
fn host_key_verifier_tofu_accepts_and_records() {
    let pk = public_key();
    let mut h = HostKeyVerifier { expected: None, observed: None };
    assert!(h.check_server_key(&pk));
    assert_eq!(h.observed, fingerprint_of(&pk));
    assert!(h.observed.is_some());
}

#[test]
fn host_key_verifier_refuses_mismatch() {
    let real = public_key();
    let imposter = public_key();
    let mut h = HostKeyVerifier { expected: fingerprint_of(&real), observed: None };
    assert!(!h.check_server_key(&imposter));
    assert!(rejected("router").contains("router"));
}

#[test]
fn output_is_collected_until_the_end() {
    let mut out = ExecOutput::new();
    assert!(out.observe(&ExecEvent::Output(b"he".to_vec())));
    assert!(out.observe(&ExecEvent::Extended(1, b"warn".to_vec())));
    assert!(out.observe(&ExecEvent::Extended(2, b"other".to_vec())));
    assert!(out.observe(&ExecEvent::Output(b"llo\xff".to_vec())));
    assert!(out.observe(&ExecEvent::ExitStatus(3)));
    assert!(out.observe(&ExecEvent::Other));
    assert!(!out.observe(&ExecEvent::End));
    let res = out.finish();
    assert_eq!(res.stdout, "hello\u{fffd}");
    assert_eq!(res.stderr, "warn");
    assert_eq!(res.exit_status, Some(3));
}
