use belka::pfusers::document::Doc;
use belka::pfusers::errors::PfError;
use belka::pfusers::mutation::{apply_mutation, apply_mutations, Mutation};
use belka::pfusers::rows::{generate_user_block, xml_escape_text, UserRow};

const SAMPLE_XML: &str = r#"<?xml version="1.0"?>
<pfsense>
  <system>
    <hostname>pfSense</hostname>
    <domain>local</domain>
    <nextuid>2001</nextuid>
    <user>
      <scope>system</scope>
      <name>admin</name>
      <descr>System Administrator</descr>
      <uid>0</uid>
      <expires></expires>
      <authorizedkeys></authorizedkeys>
      <ipsecpsk></ipsecpsk>
      <bcrypt-hash>$2y$10$abcdefghijklmnopqrstuvwxyz123456789012345678901234</bcrypt-hash>
      <priv>page-all</priv>
    </user>
    <user>
      <scope>user</scope>
      <name>olga</name>
      <descr>Olga Timoshevskaia</descr>
      <uid>2000</uid>
      <expires></expires>
      <authorizedkeys>c3NoLWVkMjU1MTkgQUFBQQ==</authorizedkeys>
      <ipsecpsk></ipsecpsk>
      <bcrypt-hash>$2y$10$zyxwvutsrqponmlkjihgfedcba987654321098765432109876</bcrypt-hash>
      <priv>user-shell-access</priv>
    </user>
    <group>
      <name>all</name>
      <description>All Users</description>
      <scope>system</scope>
      <gid>1998</gid>
      <member>0</member>
      <member>2000</member>
    </group>
    <group>
      <name>admins</name>
      <description>System Administrators</description>
      <scope>system</scope>
      <gid>1999</gid>
      <member>0</member>
      <priv>page-all</priv>
    </group>
  </system>
</pfsense>"#;

#[test]
fn parses_two_users_with_expected_fields() {
    let doc = Doc::parse(SAMPLE_XML).unwrap();
    let rows = doc.list_users().unwrap();
    assert_eq!(rows.len(), 2);
    assert_eq!(rows[0].name, "admin");
    assert_eq!(rows[0].uid, 0);
    assert!(rows[0].bcrypt_hash.is_some());
    assert_eq!(rows[0].priv_list, vec!["page-all".to_string()]);
    assert_eq!(rows[1].name, "olga");
    assert_eq!(rows[1].uid, 2000);
    assert_eq!(rows[1].priv_list, vec!["user-shell-access".to_string()]);
    assert_eq!(rows[1].authorized_keys_b64, "c3NoLWVkMjU1MTkgQUFBQQ==");
}

#[test]
fn groups_by_uid_reads_membership_correctly() {
    let doc = Doc::parse(SAMPLE_XML).unwrap();
    let g = doc.groups_by_uid().unwrap();
    let admin_groups = g.get(&0).cloned().unwrap_or_default();
    assert!(admin_groups.contains(&"all".to_string()));
    assert!(admin_groups.contains(&"admins".to_string()));
    let olga_groups = g.get(&2000).cloned().unwrap_or_default();
    assert_eq!(olga_groups, vec!["all".to_string()]);
}

// --- Byte-precise mutation tests ---
//
// The single most important guarantee these tests pin down: bytes
// OUTSIDE the mutation region are preserved verbatim. That is the
// structural fix for the byte-mismatch risk; we test it directly.

#[test]
fn apply_mutation_remove_user_preserves_bytes_outside_region() {
    // Take the substring before the first <user> and after the last
    // </group>, check both pieces survive a RemoveUser mutation
    // unchanged.
    let before_users = SAMPLE_XML.find("<user>").unwrap();
    let after_groups = SAMPLE_XML.rfind("</group>").unwrap() + "</group>".len();
    let prefix = &SAMPLE_XML[..before_users];
    let suffix = &SAMPLE_XML[after_groups..];

    let out = apply_mutation(SAMPLE_XML, &Mutation::RemoveUser("olga".into())).unwrap();
    // Prefix must appear at byte 0.
    assert!(
        out.starts_with(prefix),
        "prefix not byte-identical after RemoveUser"
    );
    // Suffix must appear verbatim near the end.
    assert!(
        out.contains(suffix),
        "suffix not byte-identical after RemoveUser"
    );
}

#[test]
fn apply_mutation_set_next_uid_only_touches_nextuid_text() {
    let out = apply_mutation(SAMPLE_XML, &Mutation::SetNextUid(2042)).unwrap();
    // The whole file should match the original EXCEPT for the value of
    // <nextuid>: the original has 2001, the new has 2042.
    let new = out.replace("<nextuid>2042</nextuid>", "<nextuid>2001</nextuid>");
    assert_eq!(
        new, SAMPLE_XML,
        "SetNextUid changed more than the <nextuid> text content",
    );
}

#[test]
fn apply_mutation_append_user_preserves_pre_system_close_bytes() {
    let row = UserRow {
        name: "newguy".into(),
        descr: "New Guy".into(),
        uid: 2001,
        scope: "user".into(),
        expires: None,
        disabled: false,
        priv_list: vec!["user-shell-access".into()],
        authorized_keys_b64: "".into(),
        bcrypt_hash: Some("$2y$10$test".into()),
        sha512_hash: None,
        md5_hash: None,
    };
    let out = apply_mutation(SAMPLE_XML, &Mutation::AppendUser(row)).unwrap();
    // Round-trip parses + 3 users now.
    let again = Doc::parse(&out).unwrap();
    let rows = again.list_users().unwrap();
    assert_eq!(rows.len(), 3);
    assert_eq!(rows[2].name, "newguy");
    // Pre-existing user blocks must be byte-identical.
    let olga_block_start = SAMPLE_XML.find("<user>\n      <scope>user").unwrap();
    let olga_block_end = SAMPLE_XML[olga_block_start..].find("</user>").unwrap()
        + olga_block_start
        + "</user>".len();
    let olga_bytes = &SAMPLE_XML[olga_block_start..olga_block_end];
    assert!(
        out.contains(olga_bytes),
        "olga's <user> block must survive AppendUser byte-for-byte",
    );
}

#[test]
fn apply_mutation_replace_user_only_changes_target_block() {
    let mut row = Doc::parse(SAMPLE_XML).unwrap().find_user("olga").unwrap();
    row.descr = "Olga (renamed)".into();
    row.authorized_keys_b64 = "bmV3a2V5".into();
    let out = apply_mutation(SAMPLE_XML, &Mutation::ReplaceUser(row)).unwrap();
    let again = Doc::parse(&out).unwrap();
    let r = again.find_user("olga").unwrap();
    assert_eq!(r.descr, "Olga (renamed)");
    assert_eq!(r.authorized_keys_b64, "bmV3a2V5");
    // admin's block must be byte-identical (it precedes olga's).
    let admin_block_start = SAMPLE_XML.find("<user>\n      <scope>system").unwrap();
    let admin_block_end = SAMPLE_XML[admin_block_start..].find("</user>").unwrap()
        + admin_block_start
        + "</user>".len();
    let admin_bytes = &SAMPLE_XML[admin_block_start..admin_block_end];
    assert!(
        out.contains(admin_bytes),
        "admin's <user> block must survive ReplaceUser byte-for-byte"
    );
}

#[test]
fn apply_mutation_remove_group_membership_strips_all_matching_member_rows() {
    let out = apply_mutation(SAMPLE_XML, &Mutation::RemoveGroupMembership(0)).unwrap();
    // admin (uid 0) is a member of both "all" and "admins" in the
    // sample; both <member>0</member> rows must be gone.
    assert!(
        !out.contains("<member>0</member>"),
        "uid 0 still present as a member after RemoveGroupMembership"
    );
    // uid 2000's membership must survive.
    assert!(
        out.contains("<member>2000</member>"),
        "uid 2000's membership was wrongly removed"
    );
}

#[test]
fn apply_mutation_add_group_member_inserts_inside_target_group() {
    let out = apply_mutation(
        SAMPLE_XML,
        &Mutation::AddGroupMember {
            group: "admins".to_string(),
            uid: 2000,
        },
    )
    .unwrap();
    // Must contain a new <member>2000</member> nested inside <group> ..
    // </group> for 'admins'.
    let admins_close = out.find("admins").and_then(|i| out[i..].find("</group>"));
    assert!(admins_close.is_some());
    // Both prior memberships still present.
    assert!(out.contains("<member>0</member>"));
    assert!(out.contains("<member>2000</member>"));
}

#[test]
fn apply_mutations_pipeline_composes_correctly() {
    // Simulate the full add_user mutation list: append user, set next
    // uid, add to 'all'.
    let row = UserRow {
        name: "newguy".into(),
        descr: "New Guy".into(),
        uid: 2001,
        scope: "user".into(),
        expires: None,
        disabled: false,
        priv_list: vec![],
        authorized_keys_b64: "".into(),
        bcrypt_hash: Some("$2y$10$test".into()),
        sha512_hash: None,
        md5_hash: None,
    };
    let muts = vec![
        Mutation::AppendUser(row),
        Mutation::SetNextUid(2002),
        Mutation::AddGroupMember {
            group: "all".to_string(),
            uid: 2001,
        },
    ];
    let out = apply_mutations(SAMPLE_XML.to_string(), muts).unwrap();
    let after = Doc::parse(&out).unwrap();
    assert_eq!(after.list_users().unwrap().len(), 3);
    assert_eq!(after.next_uid().unwrap(), 2002);
    let g = after.groups_by_uid().unwrap();
    assert!(g.get(&2001).is_some_and(|v| v.contains(&"all".to_string())));
}

// ---------- Reading ----------

fn document(inside: &str) -> String {
    format!("<pfsense><system>{inside}</system></pfsense>")
}

fn failure_of(xml: &str) -> String {
    match Doc::parse(xml) {
        Ok(doc) => doc.list_users().err().unwrap().message(),
        Err(e) => e.message(),
    }
}

#[test]
fn fields_are_read_as_they_stand() {
    let xml = document(
        "<user><name>a&amp;b</name><descr><![CDATA[x < y]]></descr><uid>7</uid><disabled/>\
         <expires>2030-01-01</expires><sha512-hash>s</sha512-hash><md5-hash>m</md5-hash>\
         <priv>one</priv><priv>two</priv></user>",
    );
    let row = Doc::parse(&xml).unwrap().find_user("a&b").unwrap();
    assert_eq!(row.name, "a&b");
    assert_eq!(row.descr, "x < y");
    assert_eq!(row.uid, 7);
    assert!(row.disabled);
    assert_eq!(row.expires.as_deref(), Some("2030-01-01"));
    assert_eq!(row.bcrypt_hash, None);
    assert_eq!(row.sha512_hash.as_deref(), Some("s"));
    assert_eq!(row.md5_hash.as_deref(), Some("m"));
    assert_eq!(row.priv_list, vec!["one".to_string(), "two".to_string()]);
}

#[test]
fn broken_documents_are_named() {
    assert_eq!(failure_of("<other></other>"), "no <pfsense> root element");
    assert_eq!(failure_of("<pfsense></pfsense>"), "no <system> in <pfsense>");
    assert!(failure_of("<pfsense></system>").starts_with("parsing config.xml: "));
    assert_eq!(
        failure_of(&document("<user><name>x</name><uid>many</uid></user>")),
        "parsing uid \"many\" for user \"x\""
    );
    let doc = Doc::parse(&document("")).unwrap();
    assert_eq!(doc.next_uid().unwrap_err(), PfError::NoNextUid);
    let doc = Doc::parse(&document("<nextuid>soon</nextuid>")).unwrap();
    assert_eq!(
        doc.next_uid().unwrap_err().message(),
        "parsing nextuid \"soon\""
    );
}

#[test]
fn only_the_users_of_the_system_are_read() {
    let xml = "<pfsense><user><name>no</name><uid>1</uid></user><system><group><user>\
               <name>no</name><uid>2</uid></user></group><user><name>yes</name><uid>3</uid>\
               </user></system></pfsense>";
    let rows = Doc::parse(xml).unwrap().list_users().unwrap();
    assert_eq!(rows.len(), 1);
    assert_eq!(rows[0].name, "yes");
}

// ---------- Changing ----------

#[test]
fn changes_that_find_nothing_are_refused() {
    let fails = |m: Mutation| apply_mutation(SAMPLE_XML, &m).unwrap_err();
    assert_eq!(
        fails(Mutation::RemoveUser("ghost".into())),
        PfError::UserNotInXml("ghost".into())
    );
    assert_eq!(
        fails(Mutation::AddGroupMember { group: "ghosts".into(), uid: 1 }),
        PfError::GroupNotFound("ghosts".into())
    );
    assert_eq!(
        apply_mutation("<a></a>", &Mutation::SetNextUid(1)).unwrap_err(),
        PfError::ElementNotFound("nextuid".into())
    );
    let row = Doc::parse(SAMPLE_XML).unwrap().find_user("olga").unwrap();
    assert_eq!(
        apply_mutation("<a></a>", &Mutation::AppendUser(row)).unwrap_err(),
        PfError::NoSystemEnd
    );
}

#[test]
fn the_first_failing_change_ends_the_list() {
    let muts = vec![
        Mutation::SetNextUid(5),
        Mutation::RemoveUser("ghost".into()),
        Mutation::SetNextUid(6),
    ];
    assert_eq!(
        apply_mutations(SAMPLE_XML.to_string(), muts).unwrap_err(),
        PfError::UserNotInXml("ghost".into())
    );
    assert_eq!(
        apply_mutations(SAMPLE_XML.to_string(), vec![]).unwrap(),
        SAMPLE_XML
    );
}

#[test]
fn removed_users_take_their_lines_with_them() {
    let out = apply_mutation(SAMPLE_XML, &Mutation::RemoveUser("olga".into())).unwrap();
    let start = SAMPLE_XML.find("\n    <user>\n      <scope>user").unwrap();
    let end = SAMPLE_XML.rfind("</user>").unwrap() + "</user>".len();
    assert_eq!(out, format!("{}{}", &SAMPLE_XML[..start], &SAMPLE_XML[end..]));
}

#[test]
fn removed_members_take_their_lines_with_them() {
    let out = apply_mutation(SAMPLE_XML, &Mutation::RemoveGroupMembership(0)).unwrap();
    assert_eq!(out, SAMPLE_XML.replace("\n      <member>0</member>", ""));
    // A uid that is nobody's changes nothing.
    let out = apply_mutation(SAMPLE_XML, &Mutation::RemoveGroupMembership(77)).unwrap();
    assert_eq!(out, SAMPLE_XML);
}

#[test]
fn members_outside_groups_go_too() {
    let stray = SAMPLE_XML
        .replace("<uid>2000</uid>", "<uid>2000</uid><member> 2000 </member>")
        .replace("</system>", "</system><old><list>a<member>2000</member>b</list></old>");
    let out = apply_mutation(&stray, &Mutation::RemoveGroupMembership(2000)).unwrap();
    assert_eq!(
        out,
        SAMPLE_XML
            .replace("\n      <member>2000</member>", "")
            .replace("</system>", "</system><old><list>ab</list></old>")
    );
    let doc = Doc::parse(&out).unwrap();
    assert_eq!(doc.list_users().unwrap().len(), 2);
    assert_eq!(doc.find_user("olga").unwrap().uid, 2000);
    assert_eq!(doc.next_uid().unwrap(), 2001);
    let groups = doc.groups_by_uid().unwrap();
    assert!(!groups.contains_key(&2000));
    assert_eq!(groups[&0], vec!["all".to_string(), "admins".to_string()]);
}

#[test]
fn a_member_in_the_next_uid_changes_it() {
    let odd = SAMPLE_XML.replace("2001</nextuid>", "20<member>7</member>01</nextuid>");
    assert_eq!(Doc::parse(&odd).unwrap().next_uid().unwrap(), 20701);
    let out = apply_mutation(&odd, &Mutation::RemoveGroupMembership(7)).unwrap();
    assert_eq!(out, SAMPLE_XML);
    assert_eq!(Doc::parse(&out).unwrap().next_uid().unwrap(), 2001);
}

#[test]
fn members_are_added_behind_another_root() {
    let front = "<backup>\n  <system>\n    <user/>\n  </system>\n</backup>\n";
    let two = SAMPLE_XML.replace("<pfsense>", &format!("{front}<pfsense>"));
    let add = Mutation::AddGroupMember { group: "admins".into(), uid: 2000 };
    let out = apply_mutation(&two, &add).unwrap();
    let alone = apply_mutation(SAMPLE_XML, &add).unwrap();
    assert_eq!(out, alone.replace("<pfsense>", &format!("{front}<pfsense>")));
    let groups = Doc::parse(&out).unwrap().groups_by_uid().unwrap();
    assert_eq!(groups[&2000], vec!["all".to_string(), "admins".to_string()]);
    assert_eq!(groups[&0], vec!["all".to_string(), "admins".to_string()]);
}

#[test]
fn written_users_are_read_back() {
    let mut row = Doc::parse(SAMPLE_XML).unwrap().find_user("olga").unwrap();
    row.name = "new".into();
    row.descr = "<&>\"' ]]> Ö".into();
    row.disabled = true;
    row.priv_list = vec!["a&b".into(), "c".into()];
    row.expires = Some("tomorrow".into());
    let written = row.duplicate();
    let out = apply_mutation(SAMPLE_XML, &Mutation::AppendUser(written)).unwrap();
    let back = Doc::parse(&out).unwrap().find_user("new").unwrap();
    assert_eq!(back.descr, row.descr);
    assert_eq!(back.uid, row.uid);
    assert_eq!(back.scope, row.scope);
    assert_eq!(back.disabled, row.disabled);
    assert_eq!(back.priv_list, row.priv_list);
    assert_eq!(back.expires, row.expires);
    assert_eq!(back.authorized_keys_b64, row.authorized_keys_b64);
    assert_eq!(back.bcrypt_hash, row.bcrypt_hash);
    assert_eq!(back.sha512_hash, row.sha512_hash);
    assert_eq!(back.md5_hash, row.md5_hash);
    // The others are read as before.
    let others = Doc::parse(&out).unwrap().list_users().unwrap();
    assert_eq!(others.len(), 3);
    assert_eq!(others[0].name, "admin");
    assert_eq!(others[1].name, "olga");
}

#[test]
fn text_is_escaped_where_it_is_written() {
    assert_eq!(xml_escape_text("a<b>&c\"'"), "a&lt;b&gt;&amp;c\"'");
    let row = Doc::parse(SAMPLE_XML).unwrap().find_user("olga").unwrap();
    let block = generate_user_block(&row, "    ");
    assert!(block.contains("<name>olga</name>"), "{block}");
    assert!(block.contains("<uid>2000</uid>"), "{block}");
    assert!(block.contains("<priv>user-shell-access</priv>"), "{block}");
}
