//! The operations on users: from the document and a request to the new document,
//! the check that follows the write, and the commands that follow the check.

use crate::base64::{base64_encode, encoded};
use crate::numbers::decimal;
use crate::pfusers::commands::{
    keys_line, lock_line, orders, pw_lock, pw_useradd, pw_userdel, pw_usermod_shell, useradd_line,
    userdel_line, usermod_line, write_authorized_keys, Command, Order,
};
use crate::pfusers::document::{next_uid_of, parsed, user_named, Doc};
use crate::pfusers::errors::{Failure, PfError};
use crate::pfusers::mutation::{apply_mutations, changes, mutated_all, Change, Mutation};
use crate::pfusers::outcomes::reads_back_all;
use crate::pfusers::pfsense::{
    derive_shell, shell_for, username_failure, validate_username,
};
use crate::pfusers::rows::{Row, UserRow};
use crate::text::{copy_texts, opt_text, same_text, same_texts, texts};
use vstd::prelude::*;
use vstd::string::*;
use vstd::utf8::*;

verus! {

// ---------- Requests ----------

/// A user to be added.
pub struct AddUserReq<'a> {
    pub name: &'a str,
    pub descr: &'a str,
    pub password: &'a str,
    pub priv_list: Vec<String>,
    pub groups: Vec<String>,
    pub authorized_keys: &'a str,
}

/// Changes to a user; what is `None` stays as it is.
pub struct UpdateUserReq<'a> {
    pub name: &'a str,
    pub descr: Option<&'a str>,
    pub priv_list: Option<Vec<String>>,
    pub authorized_keys: Option<&'a str>,
    pub disabled: Option<bool>,
    /// All groups that the user will be in; `None` leaves the memberships as they
    /// are.
    pub groups: Option<Vec<String>>,
}

// ---------- Passwords ----------

/// The cost at which passwords are hashed.
pub const HASH_COST: u32 = 10;

/// The bcrypt hash of a password, in its `$2y$` form.
pub uninterp spec fn bcrypt_text(password: Seq<u8>, cost: u32, salt: Seq<u8>) -> Seq<char>;

/// A bcrypt hash as it is written to the document: 60 characters, of which the
/// first seven give the version and the cost.
pub open spec fn is_hash_of(hash: Seq<char>, password: Seq<char>) -> bool {
    &&& hash.len() == 60
    &&& hash.take(7) == "$2y$10$"@
    &&& exists|salt: Seq<u8>|
        salt.len() == 16 && hash == #[trigger] bcrypt_text(encode_utf8(password), HASH_COST, salt)
}

/// `bcrypt::hash_with_result`, written out by `HashParts::to_string` in its `$2y$`
/// form: the hash of the password at the given cost, under some salt of 16 bytes.
/// The salt is drawn at random; where none can be drawn, or the cost is not
/// allowed, the result is `None`.
#[verifier::external_body]
fn bcrypt_hash(password: &str, cost: u32) -> (res: Option<String>)
    ensures
        res matches Some(hash) ==> hash@.len() == 60,
        res matches Some(hash) ==> cost >= 10 ==> hash@.take(7) == "$2y$"@ + decimal(cost as nat)
            + "$"@,
        res matches Some(hash) ==> exists|salt: Seq<u8>|
            salt.len() == 16 && hash@ == #[trigger] bcrypt_text(encode_utf8(password@), cost, salt),
{
    match bcrypt::hash_with_result(password, cost) {
        Ok(parts) => Some(parts.to_string()),
        Err(_) => None,
    }
}

/// The hash of a password, as it is written to the document; `None` where none
/// could be made.
fn hash_password(password: &str) -> (res: Option<String>)
    ensures
        res matches Some(hash) ==> is_hash_of(hash@, password@),
{
    proof {
        reveal_with_fuel(decimal, 2);
        reveal_strlit("$2y$10$");
        reveal_strlit("$2y$");
        reveal_strlit("$");
        assert("$2y$"@ + decimal(10) + "$"@ =~= "$2y$10$"@);
    }
    bcrypt_hash(password, HASH_COST)
}

// ---------- Checks after a write ----------

/// A check, as text.
pub enum Expectation {
    Added(Seq<char>, u32),
    Updated(Seq<char>, Option<Seq<char>>, Option<Seq<Seq<char>>>),
    Deleted(Seq<char>),
    PasswordSet(Seq<char>),
}

/// What has to hold of the document that is read back after a write.
pub enum Check {
    /// A user is there, with this uid, and the next uid is one more.
    Added { name: String, uid: u32 },
    /// A user is there, with the description and the privileges that were set.
    Updated { name: String, descr: Option<String>, priv_list: Option<Vec<String>> },
    /// A user is gone.
    Deleted { name: String },
    /// A user is there and has a bcrypt hash.
    PasswordSet { name: String },
}

pub open spec fn opt_texts(v: Option<Vec<String>>) -> Option<Seq<Seq<char>>> {
    match v {
        Some(list) => Some(texts(list@)),
        None => None,
    }
}

pub open spec fn opt_str(v: Option<&str>) -> Option<Seq<char>> {
    match v {
        Some(s) => Some(s@),
        None => None,
    }
}

impl View for Check {
    type V = Expectation;

    open spec fn view(&self) -> Expectation {
        match *self {
            Check::Added { name, uid } => Expectation::Added(name@, uid),
            Check::Updated { name, descr, priv_list } => Expectation::Updated(
                name@,
                opt_text(descr),
                opt_texts(priv_list),
            ),
            Check::Deleted { name } => Expectation::Deleted(name@),
            Check::PasswordSet { name } => Expectation::PasswordSet(name@),
        }
    }
}

/// What a check finds wrong with a document, if anything.
pub open spec fn check_failure(check: Expectation, fresh: Seq<char>) -> Option<Failure> {
    match parsed(fresh) {
        Err(f) => Some(f),
        Ok(ts) => match check {
            Expectation::Added(name, uid) => match user_named(ts, name) {
                None => Some(Failure::NewUserMissing),
                Some(row) => if row.uid != uid {
                    Some(Failure::UidMismatch(row.uid, uid))
                } else {
                    match next_uid_of(ts) {
                        Err(f) => Some(f),
                        Ok(next) => if next != uid + 1 {
                            Some(Failure::NextUidStale)
                        } else {
                            None
                        },
                    }
                },
            },
            Expectation::Updated(name, descr, priv_list) => match user_named(ts, name) {
                None => Some(Failure::UserMissingAfterWrite),
                Some(row) => if descr is Some && descr != Some(row.descr) {
                    Some(Failure::DescrChanged)
                } else if priv_list is Some && priv_list != Some(row.priv_list) {
                    Some(Failure::PrivChanged)
                } else {
                    None
                },
            },
            Expectation::Deleted(name) => if user_named(ts, name) is Some {
                Some(Failure::StillPresent)
            } else {
                None
            },
            Expectation::PasswordSet(name) => match user_named(ts, name) {
                None => Some(Failure::UserMissing),
                Some(row) => if row.bcrypt_hash is None {
                    Some(Failure::HashMissing)
                } else {
                    None
                },
            },
        },
    }
}

impl Check {
    /// Checks the document that was read back.
    pub fn run(&self, fresh: &str) -> (res: Result<(), PfError>)
        ensures
            match (res, check_failure(self@, fresh@)) {
                (Ok(_), None) => true,
                (Err(e), Some(f)) => e@ == f,
                _ => false,
            },
    {
        let doc = match Doc::parse(fresh) {
            Ok(doc) => doc,
            Err(e) => {
                return Err(e);
            },
        };
        match self {
            Check::Added { name, uid } => {
                let row = match doc.find_user(name.as_str()) {
                    Some(row) => row,
                    None => {
                        return Err(PfError::NewUserMissing);
                    },
                };
                if row.uid != *uid {
                    return Err(PfError::UidMismatch(row.uid, *uid));
                }
                match doc.next_uid() {
                    Ok(next) => {
                        if next == 0 || next - 1 != *uid {
                            Err(PfError::NextUidStale)
                        } else {
                            Ok(())
                        }
                    },
                    Err(e) => Err(e),
                }
            },
            Check::Updated { name, descr, priv_list } => {
                let row = match doc.find_user(name.as_str()) {
                    Some(row) => row,
                    None => {
                        return Err(PfError::UserMissingAfterWrite);
                    },
                };
                if let Some(wanted) = descr {
                    if !same_text(row.descr.as_str(), wanted.as_str()) {
                        return Err(PfError::DescrChanged);
                    }
                }
                if let Some(wanted) = priv_list {
                    if !same_texts(&row.priv_list, wanted) {
                        return Err(PfError::PrivChanged);
                    }
                }
                Ok(())
            },
            Check::Deleted { name } => {
                if doc.find_user(name.as_str()).is_some() {
                    Err(PfError::StillPresent)
                } else {
                    Ok(())
                }
            },
            Check::PasswordSet { name } => {
                match doc.find_user(name.as_str()) {
                    None => Err(PfError::UserMissing),
                    Some(row) => {
                        if row.bcrypt_hash.is_none() {
                            Err(PfError::HashMissing)
                        } else {
                            Ok(())
                        }
                    },
                }
            },
        }
    }
}

// ---------- Plans ----------

/// An operation, as text.
pub struct Outline {
    pub new_xml: Seq<char>,
    pub check: Expectation,
    pub commands: Seq<Order>,
}

/// An operation: the document to be written, the check of what was written, and
/// the commands to run once it has passed.
pub struct Plan {
    pub new_xml: String,
    pub check: Check,
    pub commands: Vec<Command>,
}

impl View for Plan {
    type V = Outline;

    open spec fn view(&self) -> Outline {
        Outline {
            new_xml: self.new_xml@,
            check: self.check@,
            commands: orders(self.commands@),
        }
    }
}

/// A plan, or the error, as the outcome says.
pub open spec fn follows(res: Result<Plan, PfError>, outcome: Result<Outline, Failure>) -> bool {
    match (res, outcome) {
        (Ok(plan), Ok(outline)) => plan@ == outline,
        (Err(e), Err(f)) => e@ == f,
        _ => false,
    }
}

/// The memberships in the given groups other than `all`.
pub open spec fn joined(groups: Seq<Seq<char>>, uid: u32) -> Seq<Change>
    decreases groups.len(),
{
    if groups.len() == 0 {
        Seq::empty()
    } else if groups.last() == "all"@ {
        joined(groups.drop_last(), uid)
    } else {
        joined(groups.drop_last(), uid).push(Change::AddGroupMember(groups.last(), uid))
    }
}

fn push_members(mutations: &mut Vec<Mutation>, groups: &Vec<String>, uid: u32)
    ensures
        changes(final(mutations)@) == changes(old(mutations)@) + joined(texts(groups@), uid),
{
    let ghost all = texts(groups@);
    let ghost before = changes(mutations@);
    assert(before + joined(all.take(0), uid) =~= before);
    for i in 0..groups.len()
        invariant
            all == texts(groups@),
            changes(mutations@) == before + joined(all.take(i as int), uid),
    {
        proof {
            assert(all.take(i + 1).drop_last() =~= all.take(i as int));
            assert(all.take(i + 1).last() == groups@[i as int]@);
        }
        if !same_text(groups[i].as_str(), "all") {
            let ghost so_far = changes(mutations@);
            mutations.push(Mutation::AddGroupMember { group: groups[i].clone(), uid });
            assert(changes(mutations@) =~= so_far.push(
                Change::AddGroupMember(groups@[i as int]@, uid),
            ));
        }
        assert(changes(mutations@) =~= before + joined(all.take(i + 1), uid));
    }
    assert(all.take(all.len() as int) =~= all);
}

/// The memberships in the given groups.
pub open spec fn listed(groups: Seq<Seq<char>>, uid: u32) -> Seq<Change> {
    Seq::new(groups.len(), |i: int| Change::AddGroupMember(groups[i], uid))
}

fn push_listed(mutations: &mut Vec<Mutation>, groups: &Vec<String>, uid: u32)
    ensures
        changes(final(mutations)@) == changes(old(mutations)@) + listed(texts(groups@), uid),
{
    let ghost all = texts(groups@);
    let ghost before = changes(mutations@);
    assert(before + listed(all.take(0), uid) =~= before);
    for i in 0..groups.len()
        invariant
            all == texts(groups@),
            changes(mutations@) == before + listed(all.take(i as int), uid),
    {
        let ghost so_far = changes(mutations@);
        mutations.push(Mutation::AddGroupMember { group: groups[i].clone(), uid });
        assert(changes(mutations@) =~= so_far.push(
            Change::AddGroupMember(groups@[i as int]@, uid),
        ));
        assert(all[i as int] == groups@[i as int]@);
        assert(changes(mutations@) =~= before + listed(all.take(i + 1), uid));
    }
    assert(all.take(all.len() as int) =~= all);
}

// ---------- Adding ----------

/// The checks that come before a password is hashed: the uid that the new user
/// will have, or what is wrong.
pub open spec fn add_ready<'a>(xml: Seq<char>, req: AddUserReq<'a>) -> Result<u32, Failure> {
    if req.name@.len() == 0 {
        Err(Failure::NameRequired)
    } else if req.password@.len() == 0 {
        Err(Failure::PasswordRequired)
    } else if username_failure(req.name@) is Some {
        Err(username_failure(req.name@)->0)
    } else {
        match parsed(xml) {
            Err(f) => Err(f),
            Ok(ts) => if user_named(ts, req.name@) is Some {
                Err(Failure::UserExists(req.name@))
            } else {
                match next_uid_of(ts) {
                    Err(f) => Err(f),
                    Ok(uid) => if uid == u32::MAX {
                        Err(Failure::UidsExhausted)
                    } else {
                        Ok(uid)
                    },
                }
            },
        }
    }
}

/// The row of a new user.
pub open spec fn added_row<'a>(req: AddUserReq<'a>, uid: u32, hash: Seq<char>) -> Row {
    Row {
        name: req.name@,
        descr: req.descr@,
        uid,
        scope: "user"@,
        expires: None,
        disabled: false,
        priv_list: texts(req.priv_list@),
        authorized_keys_b64: encoded(encode_utf8(req.authorized_keys@)),
        bcrypt_hash: Some(hash),
        sha512_hash: None,
        md5_hash: None,
    }
}

/// The changes that add a user: the row, the next uid, and the memberships in
/// `all` and the given groups.
pub open spec fn add_changes(row: Row, groups: Seq<Seq<char>>) -> Seq<Change> {
    seq![
        Change::AppendUser(row),
        Change::SetNextUid((row.uid + 1) as u32),
        Change::AddGroupMember("all"@, row.uid),
    ] + joined(groups, row.uid)
}

/// The commands that follow: the account, then its keys if there are any.
pub open spec fn add_orders<'a>(req: AddUserReq<'a>, uid: u32) -> Seq<Order> {
    let account = Order::Required(
        useradd_line(req.name@, uid, shell_for(texts(req.priv_list@)), req.descr@),
    );
    if req.authorized_keys@.len() == 0 {
        seq![account]
    } else {
        seq![account, Order::Keys(keys_line(req.name@), req.authorized_keys@)]
    }
}

/// What adding a user comes to, given the hash of the password.
pub open spec fn add_outcome<'a>(xml: Seq<char>, req: AddUserReq<'a>, hash: Seq<char>) -> Result<
    Outline,
    Failure,
> {
    match add_ready(xml, req) {
        Err(f) => Err(f),
        Ok(uid) => match mutated_all(
            xml,
            add_changes(added_row(req, uid, hash), texts(req.groups@)),
        ) {
            Err(f) => Err(f),
            Ok(new_xml) => Ok(
                Outline {
                    new_xml,
                    check: Expectation::Added(req.name@, uid),
                    commands: add_orders(req, uid),
                },
            ),
        },
    }
}

/// The checks before a user is added.
fn prepare_add(xml: &str, req: &AddUserReq) -> (res: Result<u32, PfError>)
    ensures
        match (res, add_ready(xml@, *req)) {
            (Ok(uid), Ok(wanted)) => uid == wanted && uid < u32::MAX,
            (Err(e), Err(f)) => e@ == f,
            _ => false,
        },
{
    if req.name.unicode_len() == 0 {
        return Err(PfError::NameRequired);
    }
    if req.password.unicode_len() == 0 {
        return Err(PfError::PasswordRequired);
    }
    match validate_username(req.name) {
        Ok(_) => {},
        Err(e) => {
            return Err(e);
        },
    }
    let doc = match Doc::parse(xml) {
        Ok(doc) => doc,
        Err(e) => {
            return Err(e);
        },
    };
    if doc.find_user(req.name).is_some() {
        return Err(PfError::UserExists(req.name.to_owned()));
    }
    match doc.next_uid() {
        Ok(uid) => {
            if uid == u32::MAX {
                Err(PfError::UidsExhausted)
            } else {
                Ok(uid)
            }
        },
        Err(e) => Err(e),
    }
}

/// Adds a user whose password has been hashed.
pub fn add_user_with_hash(xml: &str, req: &AddUserReq, hash: String) -> (res: Result<Plan, PfError>)
    ensures
        follows(res, add_outcome(xml@, *req, hash@)),
        res matches Ok(plan) ==> reads_back_all(
            xml@,
            add_changes(
                added_row(*req, add_ready(xml@, *req)->Ok_0, hash@),
                texts(req.groups@),
            ),
            plan.new_xml@,
        ),
{
    let uid = match prepare_add(xml, req) {
        Ok(uid) => uid,
        Err(e) => {
            return Err(e);
        },
    };
    let row = UserRow {
        name: req.name.to_owned(),
        descr: req.descr.to_owned(),
        uid,
        scope: "user".to_owned(),
        expires: None,
        disabled: false,
        priv_list: copy_texts(&req.priv_list),
        authorized_keys_b64: base64_encode(req.authorized_keys.as_bytes()),
        bcrypt_hash: Some(hash),
        sha512_hash: None,
        md5_hash: None,
    };
    let ghost wanted = added_row(*req, uid, hash@);
    assert(row@ == wanted);
    let mut mutations: Vec<Mutation> = Vec::new();
    mutations.push(Mutation::AppendUser(row));
    mutations.push(Mutation::SetNextUid(uid + 1));
    mutations.push(Mutation::AddGroupMember { group: "all".to_owned(), uid });
    assert(changes(mutations@) =~= seq![
        Change::AppendUser(wanted),
        Change::SetNextUid((uid + 1) as u32),
        Change::AddGroupMember("all"@, uid),
    ]);
    push_members(&mut mutations, &req.groups, uid);
    let new_xml = match apply_mutations(xml.to_owned(), mutations) {
        Ok(new_xml) => new_xml,
        Err(e) => {
            return Err(e);
        },
    };
    let mut commands: Vec<Command> = Vec::new();
    commands.push(
        Command::Required(pw_useradd(req.name, uid, derive_shell(req.priv_list.as_slice()), req.descr)),
    );
    if req.authorized_keys.unicode_len() > 0 {
        commands.push(
            Command::Keys {
                line: write_authorized_keys(req.name),
                keys: req.authorized_keys.to_owned(),
            },
        );
    }
    assert(orders(commands@) =~= add_orders(*req, uid));
    Ok(Plan { new_xml, check: Check::Added { name: req.name.to_owned(), uid }, commands })
}

/// Adds a user: what is wrong with the request or the document, a failure to
/// hash the password, or the plan for some hash of it.
pub fn add_user(xml: &str, req: &AddUserReq) -> (res: Result<Plan, PfError>)
    ensures
        add_ready(xml@, *req) matches Err(f) ==> res matches Err(e) && e@ == f,
        add_ready(xml@, *req) is Ok ==> {
            ||| res matches Err(e) && e@ == Failure::Hashing
            ||| exists|hash: Seq<char>|
                is_hash_of(hash, req.password@) && #[trigger] follows(
                    res,
                    add_outcome(xml@, *req, hash),
                ) && (res matches Ok(plan) ==> reads_back_all(
                    xml@,
                    add_changes(
                        added_row(*req, add_ready(xml@, *req)->Ok_0, hash),
                        texts(req.groups@),
                    ),
                    plan.new_xml@,
                ))
        },
{
    match prepare_add(xml, req) {
        Ok(_) => {},
        Err(e) => {
            return Err(e);
        },
    }
    match hash_password(req.password) {
        Some(hash) => {
            let ghost text = hash@;
            let res = add_user_with_hash(xml, req, hash);
            assert(is_hash_of(text, req.password@));
            assert(follows(res, add_outcome(xml@, *req, text)));
            res
        },
        None => Err(PfError::Hashing),
    }
}

// ---------- Changing ----------

/// The row of a user after the requested changes.
pub open spec fn updated_row<'a>(row: Row, req: UpdateUserReq<'a>) -> Row {
    Row {
        descr: match req.descr {
            Some(d) => d@,
            None => row.descr,
        },
        priv_list: match req.priv_list {
            Some(p) => texts(p@),
            None => row.priv_list,
        },
        authorized_keys_b64: match req.authorized_keys {
            Some(k) => encoded(encode_utf8(k@)),
            None => row.authorized_keys_b64,
        },
        disabled: match req.disabled {
            Some(d) => d,
            None => row.disabled,
        },
        ..row
    }
}

/// The changes: the row, and, where groups are given, the memberships in exactly
/// these.
pub open spec fn update_changes(row: Row, groups: Option<Seq<Seq<char>>>) -> Seq<Change> {
    match groups {
        None => seq![Change::ReplaceUser(row)],
        Some(list) => seq![
            Change::ReplaceUser(row),
            Change::RemoveGroupMembership(row.uid),
        ] + listed(list, row.uid),
    }
}

/// The commands that follow: the login shell, then the keys and the lock where
/// they were given.
pub open spec fn update_orders<'a>(row: Row, req: UpdateUserReq<'a>) -> Seq<Order> {
    seq![Order::Required(usermod_line(row.name, shell_for(row.priv_list)))] + (
    match req.authorized_keys {
        Some(k) => seq![Order::Keys(keys_line(row.name), k@)],
        None => Seq::empty(),
    }) + (match req.disabled {
        Some(d) => seq![Order::Ignored(lock_line(row.name, d))],
        None => Seq::empty(),
    })
}

/// What changing a user comes to.
pub open spec fn update_outcome<'a>(xml: Seq<char>, req: UpdateUserReq<'a>) -> Result<
    Outline,
    Failure,
> {
    if req.name@.len() == 0 {
        Err(Failure::NameRequired)
    } else {
        match parsed(xml) {
            Err(f) => Err(f),
            Ok(ts) => match user_named(ts, req.name@) {
                None => Err(Failure::UserNotFound(req.name@)),
                Some(found) => {
                    let row = updated_row(found, req);
                    match mutated_all(xml, update_changes(row, opt_texts(req.groups))) {
                        Err(f) => Err(f),
                        Ok(new_xml) => Ok(
                            Outline {
                                new_xml,
                                check: Expectation::Updated(
                                    req.name@,
                                    opt_str(req.descr),
                                    opt_texts(req.priv_list),
                                ),
                                commands: update_orders(row, req),
                            },
                        ),
                    }
                },
            },
        }
    }
}

/// Makes the requested changes to a row.
fn update_row(row: UserRow, req: &UpdateUserReq) -> (out: UserRow)
    ensures
        out@ == updated_row(row@, *req),
{
    let descr = match req.descr {
        Some(d) => d.to_owned(),
        None => row.descr,
    };
    let priv_list = match &req.priv_list {
        Some(p) => copy_texts(p),
        None => row.priv_list,
    };
    let authorized_keys_b64 = match req.authorized_keys {
        Some(k) => base64_encode(k.as_bytes()),
        None => row.authorized_keys_b64,
    };
    let disabled = match req.disabled {
        Some(d) => d,
        None => row.disabled,
    };
    UserRow {
        name: row.name,
        descr,
        uid: row.uid,
        scope: row.scope,
        expires: row.expires,
        disabled,
        priv_list,
        authorized_keys_b64,
        bcrypt_hash: row.bcrypt_hash,
        sha512_hash: row.sha512_hash,
        md5_hash: row.md5_hash,
    }
}

/// The commands that follow a change of a user.
fn update_commands(row: &UserRow, req: &UpdateUserReq) -> (out: Vec<Command>)
    ensures
        orders(out@) == update_orders(row@, *req),
{
    let mut out: Vec<Command> = Vec::new();
    out.push(
        Command::Required(pw_usermod_shell(row.name.as_str(), derive_shell(row.priv_list.as_slice()))),
    );
    let ghost first = orders(out@);
    assert(first =~= seq![
        Order::Required(usermod_line(row.name@, shell_for(texts(row.priv_list@)))),
    ]);
    if let Some(k) = req.authorized_keys {
        out.push(
            Command::Keys {
                line: write_authorized_keys(row.name.as_str()),
                keys: k.to_owned(),
            },
        );
        assert(orders(out@) =~= first.push(Order::Keys(keys_line(row.name@), k@)));
    }
    let ghost second = orders(out@);
    if let Some(d) = req.disabled {
        out.push(Command::Ignored(pw_lock(row.name.as_str(), d)));
        assert(orders(out@) =~= second.push(Order::Ignored(lock_line(row.name@, d))));
    }
    assert(orders(out@) =~= update_orders(row@, *req));
    out
}

/// Changes a user.
pub fn update_user(xml: &str, req: &UpdateUserReq) -> (res: Result<Plan, PfError>)
    ensures
        follows(res, update_outcome(xml@, *req)),
        res matches Ok(plan) ==> reads_back_all(
            xml@,
            update_changes(
                updated_row(user_named(parsed(xml@)->Ok_0, req.name@)->0, *req),
                opt_texts(req.groups),
            ),
            plan.new_xml@,
        ),
{
    if req.name.unicode_len() == 0 {
        return Err(PfError::NameRequired);
    }
    let doc = match Doc::parse(xml) {
        Ok(doc) => doc,
        Err(e) => {
            return Err(e);
        },
    };
    let found = match doc.find_user(req.name) {
        Some(row) => row,
        None => {
            return Err(PfError::UserNotFound(req.name.to_owned()));
        },
    };
    let row = update_row(found, req);
    let uid: u32 = row.uid;
    let mut mutations: Vec<Mutation> = Vec::new();
    mutations.push(Mutation::ReplaceUser(row.duplicate()));
    assert(changes(mutations@) =~= seq![Change::ReplaceUser(row@)]);
    if let Some(groups) = &req.groups {
        mutations.push(Mutation::RemoveGroupMembership(uid));
        assert(changes(mutations@) =~= seq![
            Change::ReplaceUser(row@),
            Change::RemoveGroupMembership(uid),
        ]);
        push_listed(&mut mutations, groups, uid);
    }
    assert(changes(mutations@) == update_changes(row@, opt_texts(req.groups)));
    let new_xml = match apply_mutations(xml.to_owned(), mutations) {
        Ok(new_xml) => new_xml,
        Err(e) => {
            return Err(e);
        },
    };
    let commands = update_commands(&row, req);
    let descr = match req.descr {
        Some(d) => Some(d.to_owned()),
        None => None,
    };
    let priv_list = match &req.priv_list {
        Some(p) => Some(copy_texts(p)),
        None => None,
    };
    Ok(Plan { new_xml, check: Check::Updated { name: req.name.to_owned(), descr, priv_list }, commands })
}

// ---------- Deleting ----------

/// What deleting a user comes to.
pub open spec fn delete_outcome(xml: Seq<char>, name: Seq<char>) -> Result<Outline, Failure> {
    if name.len() == 0 {
        Err(Failure::NameRequired)
    } else {
        match parsed(xml) {
            Err(f) => Err(f),
            Ok(ts) => match user_named(ts, name) {
                None => Err(Failure::UserNotFound(name)),
                Some(row) => if row.uid == 0 {
                    Err(Failure::ProtectedUser)
                } else {
                    match mutated_all(
                        xml,
                        seq![Change::RemoveUser(name), Change::RemoveGroupMembership(row.uid)],
                    ) {
                        Err(f) => Err(f),
                        Ok(new_xml) => Ok(
                            Outline {
                                new_xml,
                                check: Expectation::Deleted(name),
                                commands: seq![Order::Ignored(userdel_line(name))],
                            },
                        ),
                    }
                },
            },
        }
    }
}

/// Deletes a user, and all memberships of it.
pub fn delete_user(xml: &str, name: &str) -> (res: Result<Plan, PfError>)
    ensures
        follows(res, delete_outcome(xml@, name@)),
        res matches Ok(plan) ==> reads_back_all(
            xml@,
            seq![
                Change::RemoveUser(name@),
                Change::RemoveGroupMembership(user_named(parsed(xml@)->Ok_0, name@)->0.uid),
            ],
            plan.new_xml@,
        ),
{
    if name.unicode_len() == 0 {
        return Err(PfError::NameRequired);
    }
    let doc = match Doc::parse(xml) {
        Ok(doc) => doc,
        Err(e) => {
            return Err(e);
        },
    };
    let row = match doc.find_user(name) {
        Some(row) => row,
        None => {
            return Err(PfError::UserNotFound(name.to_owned()));
        },
    };
    if row.uid == 0 {
        return Err(PfError::ProtectedUser);
    }
    let mut mutations: Vec<Mutation> = Vec::new();
    mutations.push(Mutation::RemoveUser(name.to_owned()));
    mutations.push(Mutation::RemoveGroupMembership(row.uid));
    assert(changes(mutations@) =~= seq![
        Change::RemoveUser(name@),
        Change::RemoveGroupMembership(row.uid),
    ]);
    let new_xml = match apply_mutations(xml.to_owned(), mutations) {
        Ok(new_xml) => new_xml,
        Err(e) => {
            return Err(e);
        },
    };
    let mut commands: Vec<Command> = Vec::new();
    commands.push(Command::Ignored(pw_userdel(name)));
    assert(orders(commands@) =~= seq![Order::Ignored(userdel_line(name@))]);
    Ok(Plan { new_xml, check: Check::Deleted { name: name.to_owned() }, commands })
}

// ---------- Passwords of users ----------

/// The checks that come before a password is hashed: the user, or what is wrong.
pub open spec fn password_ready(xml: Seq<char>, name: Seq<char>, password: Seq<char>) -> Result<
    Row,
    Failure,
> {
    if password.len() == 0 {
        Err(Failure::PasswordRequired)
    } else {
        match parsed(xml) {
            Err(f) => Err(f),
            Ok(ts) => match user_named(ts, name) {
                None => Err(Failure::UserNotFound(name)),
                Some(row) => Ok(row),
            },
        }
    }
}

/// A user with a new hash: the other kinds of hash are dropped.
pub open spec fn hashed_row(row: Row, hash: Seq<char>) -> Row {
    Row { bcrypt_hash: Some(hash), sha512_hash: None, md5_hash: None, ..row }
}

/// What setting a password comes to, given its hash.
pub open spec fn password_outcome(
    xml: Seq<char>,
    name: Seq<char>,
    password: Seq<char>,
    hash: Seq<char>,
) -> Result<Outline, Failure> {
    match password_ready(xml, name, password) {
        Err(f) => Err(f),
        Ok(row) => {
            match mutated_all(xml, seq![Change::ReplaceUser(hashed_row(row, hash))]) {
                Err(f) => Err(f),
                Ok(new_xml) => Ok(
                    Outline {
                        new_xml,
                        check: Expectation::PasswordSet(name),
                        commands: Seq::empty(),
                    },
                ),
            }
        },
    }
}

/// The checks before a password is set.
fn prepare_password(xml: &str, name: &str, password: &str) -> (res: Result<UserRow, PfError>)
    ensures
        match (res, password_ready(xml@, name@, password@)) {
            (Ok(row), Ok(wanted)) => row@ == wanted,
            (Err(e), Err(f)) => e@ == f,
            _ => false,
        },
{
    if password.unicode_len() == 0 {
        return Err(PfError::PasswordRequired);
    }
    let doc = match Doc::parse(xml) {
        Ok(doc) => doc,
        Err(e) => {
            return Err(e);
        },
    };
    match doc.find_user(name) {
        Some(row) => Ok(row),
        None => Err(PfError::UserNotFound(name.to_owned())),
    }
}

/// Sets the password of a user, once it has been hashed.
pub fn set_password_with_hash(xml: &str, name: &str, password: &str, hash: String) -> (res: Result<
    Plan,
    PfError,
>)
    ensures
        follows(res, password_outcome(xml@, name@, password@, hash@)),
        res matches Ok(plan) ==> reads_back_all(
            xml@,
            seq![
                Change::ReplaceUser(
                    hashed_row(password_ready(xml@, name@, password@)->Ok_0, hash@),
                ),
            ],
            plan.new_xml@,
        ),
{
    let found = match prepare_password(xml, name, password) {
        Ok(row) => row,
        Err(e) => {
            return Err(e);
        },
    };
    let row = UserRow {
        name: found.name,
        descr: found.descr,
        uid: found.uid,
        scope: found.scope,
        expires: found.expires,
        disabled: found.disabled,
        priv_list: found.priv_list,
        authorized_keys_b64: found.authorized_keys_b64,
        bcrypt_hash: Some(hash),
        sha512_hash: None,
        md5_hash: None,
    };
    let ghost wanted = hashed_row(found@, hash@);
    assert(row@ == wanted);
    let mut mutations: Vec<Mutation> = Vec::new();
    mutations.push(Mutation::ReplaceUser(row));
    assert(changes(mutations@) =~= seq![Change::ReplaceUser(wanted)]);
    let new_xml = match apply_mutations(xml.to_owned(), mutations) {
        Ok(new_xml) => new_xml,
        Err(e) => {
            return Err(e);
        },
    };
    let commands: Vec<Command> = Vec::new();
    assert(orders(commands@) =~= Seq::empty());
    Ok(Plan { new_xml, check: Check::PasswordSet { name: name.to_owned() }, commands })
}

/// Sets the password of a user: what is wrong with the request or the document, a
/// failure to hash the password, or the plan for some hash of it.
pub fn set_password(xml: &str, name: &str, password: &str) -> (res: Result<Plan, PfError>)
    ensures
        password_ready(xml@, name@, password@) matches Err(f) ==> res matches Err(e) && e@ == f,
        password_ready(xml@, name@, password@) is Ok ==> {
            ||| res matches Err(e) && e@ == Failure::Hashing
            ||| exists|hash: Seq<char>|
                is_hash_of(hash, password@) && #[trigger] follows(
                    res,
                    password_outcome(xml@, name@, password@, hash),
                ) && (res matches Ok(plan) ==> reads_back_all(
                    xml@,
                    seq![
                        Change::ReplaceUser(
                            hashed_row(password_ready(xml@, name@, password@)->Ok_0, hash),
                        ),
                    ],
                    plan.new_xml@,
                ))
        },
{
    match prepare_password(xml, name, password) {
        Ok(_) => {},
        Err(e) => {
            return Err(e);
        },
    }
    match hash_password(password) {
        Some(hash) => {
            let ghost text = hash@;
            let res = set_password_with_hash(xml, name, password, hash);
            assert(is_hash_of(text, password@));
            assert(follows(res, password_outcome(xml@, name@, password@, text)));
            res
        },
        None => Err(PfError::Hashing),
    }
}

// ---------- Laws ----------

/// A new user is refused without a name or a password, under a name that is not allowed,
/// and under one that is taken.
pub proof fn bad_users_are_refused<'a>(xml: Seq<char>, req: AddUserReq<'a>, hash: Seq<char>)
    ensures
        req.name@.len() == 0 ==> add_outcome(xml, req, hash) == Err::<Outline, Failure>(
            Failure::NameRequired,
        ),
        req.name@.len() > 0 && req.password@.len() == 0 ==> add_outcome(xml, req, hash) == Err::<
            Outline,
            Failure,
        >(Failure::PasswordRequired),
        add_outcome(xml, req, hash) is Ok ==> req.name@.len() > 0 && req.password@.len() > 0
            && username_failure(req.name@) is None && parsed(xml) is Ok && user_named(
            parsed(xml)->Ok_0,
            req.name@,
        ) is None && next_uid_of(parsed(xml)->Ok_0) is Ok,
        req.name@.len() > 0 && req.password@.len() > 0 && username_failure(req.name@) is None
            && parsed(xml) is Ok && user_named(parsed(xml)->Ok_0, req.name@) is Some
            ==> add_outcome(xml, req, hash) == Err::<Outline, Failure>(
            Failure::UserExists(req.name@),
        ),
{
}

/// Only a user that is there can be changed, get a password or be deleted, and the user
/// with the uid zero cannot be deleted.
pub proof fn missing_users_are_refused<'a>(
    xml: Seq<char>,
    req: UpdateUserReq<'a>,
    password: Seq<char>,
    hash: Seq<char>,
)
    requires
        parsed(xml) is Ok,
        req.name@.len() > 0,
        password.len() > 0,
    ensures
        ({
            let found = user_named(parsed(xml)->Ok_0, req.name@);
            &&& found is None ==> {
                &&& update_outcome(xml, req) == Err::<Outline, Failure>(
                    Failure::UserNotFound(req.name@),
                )
                &&& delete_outcome(xml, req.name@) == Err::<Outline, Failure>(
                    Failure::UserNotFound(req.name@),
                )
                &&& password_outcome(xml, req.name@, password, hash) == Err::<Outline, Failure>(
                    Failure::UserNotFound(req.name@),
                )
            }
            &&& found is Some && found->0.uid == 0 ==> delete_outcome(xml, req.name@) == Err::<
                Outline,
                Failure,
            >(Failure::ProtectedUser)
        }),
        password_outcome(xml, req.name@, Seq::empty(), hash) == Err::<Outline, Failure>(
            Failure::PasswordRequired,
        ),
{
}

/// What the check after an operation asks of the document that was read back, and that
/// it asks no more.
pub proof fn checks_ask_for_what_was_done(
    fresh: Seq<char>,
    name: Seq<char>,
    uid: u32,
    descr: Option<Seq<char>>,
    priv_list: Option<Seq<Seq<char>>>,
)
    requires
        parsed(fresh) is Ok,
    ensures
        ({
            let ts = parsed(fresh)->Ok_0;
            let found = user_named(ts, name);
            &&& check_failure(Expectation::Added(name, uid), fresh) is None <==> found is Some
                && found->0.uid == uid && next_uid_of(ts) is Ok && next_uid_of(ts)->Ok_0 == uid + 1
            &&& check_failure(Expectation::Updated(name, descr, priv_list), fresh) is None
                <==> found is Some && (descr is Some ==> found->0.descr == descr->0) && (
            priv_list is Some ==> found->0.priv_list == priv_list->0)
            &&& check_failure(Expectation::Deleted(name), fresh) is None <==> found is None
            &&& check_failure(Expectation::PasswordSet(name), fresh) is None <==> found is Some
                && found->0.bcrypt_hash is Some
        }),
{
}

/// Each operation asks afterwards for what it did.
pub proof fn operations_are_checked<'a, 'b>(
    xml: Seq<char>,
    add: AddUserReq<'a>,
    update: UpdateUserReq<'b>,
    name: Seq<char>,
    password: Seq<char>,
    hash: Seq<char>,
)
    ensures
        add_outcome(xml, add, hash) matches Ok(o) ==> o.check == Expectation::Added(
            add.name@,
            next_uid_of(parsed(xml)->Ok_0)->Ok_0,
        ),
        update_outcome(xml, update) matches Ok(o) ==> o.check == Expectation::Updated(
            update.name@,
            opt_str(update.descr),
            opt_texts(update.priv_list),
        ),
        delete_outcome(xml, name) matches Ok(o) ==> o.check == Expectation::Deleted(name),
        password_outcome(xml, name, password, hash) matches Ok(o) ==> o.check
            == Expectation::PasswordSet(name) && o.commands.len() == 0,
{
}


} // verus!
