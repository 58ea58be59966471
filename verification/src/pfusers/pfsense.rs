//! The names and shells of users, and the list of them that is shown.

use crate::base64::{base64_decode, base64_round_trip, decoded, encoded};
use crate::pfusers::document::{groups_of, grouped, memberships, parsed, rows, users, Doc};
use crate::pfusers::errors::{Failure, PfError};
use crate::pfusers::rows::{Row, UserRow};
use crate::pfusers::users::PfUser;
use crate::text::{chars_of, contains_text, copy_texts, opt_text, texts};
use vstd::prelude::*;
use vstd::string::*;
use vstd::utf8::*;

verus! {

broadcast use vstd::std_specs::hash::group_hash_axioms;

// ---------- Names and shells ----------

/// A character of a user name.
pub open spec fn is_username_char(c: char) -> bool {
    ||| 'a' <= c <= 'z'
    ||| 'A' <= c <= 'Z'
    ||| '0' <= c <= '9'
    ||| c == '_'
    ||| c == '-'
    ||| c == '.'
}

/// What is wrong with a user name, if anything.
pub open spec fn username_failure(name: Seq<char>) -> Option<Failure> {
    if exists|i: int| 0 <= i < name.len() && !is_username_char(#[trigger] name[i]) {
        Some(Failure::BadUsername(name))
    } else if name.len() > 0 && name[0] == '-' {
        Some(Failure::LeadingDash)
    } else {
        None
    }
}

/// Accepts names of ASCII letters, digits, `_`, `-` and `.` that do not start
/// with a `-`.
pub fn validate_username(name: &str) -> (res: Result<(), PfError>)
    ensures
        match (res, username_failure(name@)) {
            (Ok(_), None) => true,
            (Err(e), Some(f)) => e@ == f,
            _ => false,
        },
{
    let chars = chars_of(name);
    for i in 0..chars.len()
        invariant
            chars@ == name@,
            forall|k: int| 0 <= k < i ==> is_username_char(#[trigger] name@[k]),
    {
        let c = chars[i];
        let fine = ('a' <= c && c <= 'z') || ('A' <= c && c <= 'Z') || ('0' <= c && c <= '9') || c
            == '_' || c == '-' || c == '.';
        if !fine {
            assert(!is_username_char(name@[i as int]));
            return Err(PfError::BadUsername(name.to_owned()));
        }
    }
    if chars.len() > 0 && chars[0] == '-' {
        return Err(PfError::LeadingDash);
    }
    Ok(())
}

/// The login shell that a list of privileges gives.
pub open spec fn shell_for(list: Seq<Seq<char>>) -> Seq<char> {
    if list.contains("user-shell-access"@) || list.contains("page-all"@) {
        "/bin/tcsh"@
    } else if list.contains("user-copy-files-chroot"@) {
        "/usr/local/sbin/scponlyc"@
    } else if list.contains("user-copy-files"@) {
        "/usr/local/bin/scponly"@
    } else if list.contains("user-ssh-tunnel"@) {
        "/usr/local/sbin/ssh_tunnel_shell"@
    } else {
        "/sbin/nologin"@
    }
}

/// Picks the login shell for a list of privileges.
pub fn derive_shell(priv_list: &[String]) -> (out: &'static str)
    ensures
        out@ == shell_for(texts(priv_list@)),
{
    if contains_text(priv_list, "user-shell-access") || contains_text(priv_list, "page-all") {
        "/bin/tcsh"
    } else if contains_text(priv_list, "user-copy-files-chroot") {
        "/usr/local/sbin/scponlyc"
    } else if contains_text(priv_list, "user-copy-files") {
        "/usr/local/bin/scponly"
    } else if contains_text(priv_list, "user-ssh-tunnel") {
        "/usr/local/sbin/ssh_tunnel_shell"
    } else {
        "/sbin/nologin"
    }
}

// ---------- Listing ----------

/// The text that `String::from_utf8_lossy` makes of bytes.
pub uninterp spec fn lossy(bytes: Seq<u8>) -> Seq<char>;

/// `String::from_utf8_lossy`: valid UTF-8 is taken as it is; of other bytes no
/// more is said than the name `lossy`.
#[verifier::external_body]
pub(crate) fn lossy_text(bytes: &Vec<u8>) -> (out: String)
    ensures
        out@ == lossy(bytes@),
        valid_utf8(bytes@) ==> encode_utf8(out@) == bytes@,
{
    String::from_utf8_lossy(bytes).into_owned()
}

/// `out` shows the user `row`, in the groups `groups`.
pub open spec fn shows(out: PfUser, row: Row, groups: Seq<Seq<char>>) -> bool {
    &&& out.name@ == row.name
    &&& out.descr@ == row.descr
    &&& out.uid == row.uid
    &&& out.scope@ == row.scope
    &&& opt_text(out.expires) == row.expires
    &&& out.disabled == row.disabled
    &&& texts(out.groups@) == groups
    &&& texts(out.priv_list@) == row.priv_list
    &&& out.authorized_keys@ == lossy(decoded(row.authorized_keys_b64))
    &&& out.has_bcrypt == (row.bcrypt_hash is Some)
    &&& out.has_sha512 == (row.sha512_hash is Some)
    &&& out.has_legacy_md5 == (row.md5_hash is Some)
}

/// The user that a row stands for.
pub fn row_to_pfuser(row: UserRow, groups: Vec<String>) -> (out: PfUser)
    ensures
        shows(out, row@, texts(groups@)),
{
    let bytes = base64_decode(row.authorized_keys_b64.as_str());
    let authorized_keys = lossy_text(&bytes);
    PfUser {
        name: row.name,
        descr: row.descr,
        uid: row.uid as i64,
        scope: row.scope,
        expires: row.expires,
        disabled: row.disabled,
        groups,
        priv_list: row.priv_list,
        authorized_keys,
        has_bcrypt: row.bcrypt_hash.is_some(),
        has_sha512: row.sha512_hash.is_some(),
        has_legacy_md5: row.md5_hash.is_some(),
    }
}

/// Everything that a list of users needs can be read from the document; or the
/// first failure.
pub open spec fn listing(xml: Seq<char>) -> Result<(Seq<Row>, Seq<(u32, Seq<char>)>), Failure> {
    match parsed(xml) {
        Err(f) => Err(f),
        Ok(ts) => match users(ts) {
            Err(f) => Err(f),
            Ok(list) => match memberships(ts) {
                Err(f) => Err(f),
                Ok(groups) => Ok((list, groups)),
            },
        },
    }
}

/// The users of a document, with their groups.
pub fn list_users(xml: &str) -> (res: Result<Vec<PfUser>, PfError>)
    ensures
        match (listing(xml@), res) {
            (Ok((list, groups)), Ok(out)) => out.len() == list.len() && forall|i: int|
                0 <= i < out.len() ==> shows(
                    #[trigger] out@[i],
                    list[i],
                    groups_of(groups, list[i].uid),
                ),
            (Err(f), Err(e)) => e@ == f,
            _ => false,
        },
{
    let doc = match Doc::parse(xml) {
        Ok(doc) => doc,
        Err(e) => {
            return Err(e);
        },
    };
    let list = match doc.list_users() {
        Ok(list) => list,
        Err(e) => {
            return Err(e);
        },
    };
    let groups = match doc.groups_by_uid() {
        Ok(groups) => groups,
        Err(e) => {
            return Err(e);
        },
    };
    let ghost wanted = rows(list@);
    let ghost pairs = memberships(doc@)->Ok_0;
    let mut out: Vec<PfUser> = Vec::new();
    for i in 0..list.len()
        invariant
            wanted == rows(list@),
            grouped(groups@, pairs),
            out.len() == i,
            forall|k: int|
                0 <= k < i ==> shows(
                    #[trigger] out@[k],
                    wanted[k],
                    groups_of(pairs, wanted[k].uid),
                ),
    {
        let row = list[i].duplicate();
        assert(groups@.contains_key(row.uid) || !groups@.contains_key(row.uid));
        let names: Vec<String> = match groups.get(&row.uid) {
            Some(names) => copy_texts(names),
            None => Vec::new(),
        };
        assert(texts(names@) =~= groups_of(pairs, row.uid));
        out.push(row_to_pfuser(row, names));
    }
    Ok(out)
}

// ---------- Laws ----------

/// A user is shown as it stands in the document, field by field; its keys as the text
/// that they were encoded from; and of its passwords only which kinds there are.
pub proof fn users_are_shown_as_they_are(
    out: PfUser,
    row: Row,
    groups: Seq<Seq<char>>,
    keys: Seq<char>,
)
    requires
        shows(out, row, groups),
        row.authorized_keys_b64 == encoded(encode_utf8(keys)),
    ensures
        out.name@ == row.name,
        out.descr@ == row.descr,
        out.uid == row.uid,
        out.scope@ == row.scope,
        row.expires is None <==> out.expires is None,
        out.expires is Some ==> out.expires->0@ == row.expires->0,
        out.disabled == row.disabled,
        texts(out.groups@) == groups,
        texts(out.priv_list@) == row.priv_list,
        out.authorized_keys@ == lossy(encode_utf8(keys)),
        out.has_bcrypt <==> row.bcrypt_hash is Some,
        out.has_sha512 <==> row.sha512_hash is Some,
        out.has_legacy_md5 <==> row.md5_hash is Some,
{
    base64_round_trip(encode_utf8(keys));
}


} // verus!
