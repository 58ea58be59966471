//! The forms of the user interface: what is offered, and what is asked for.

use crate::numbers::{decimal, decimal_text, signed_decimal, signed_text};
use crate::pfusers::operations::{opt_str, opt_texts, UpdateUserReq};
use crate::pfusers::pfsh::{cut, truncate};
use crate::pfusers::users::PfUser;
use crate::text::{
    concat2, concat3, contains_text, copy_texts, count_filled, count_filled_lines,
    lemma_byte_len_bounds, lemma_encode_concat, lines, same_text, texts, trim, trimmed,
};
use vstd::prelude::*;
use vstd::string::*;
use vstd::utf8::*;

verus! {

/// A user that is being typed in.
pub struct AddForm {
    pub name: String,
    pub descr: String,
    pub password: String,
    pub authorized_keys: String,
    pub shell_access: bool,
    pub web_access: bool,
}

/// The privileges that are asked for.
pub open spec fn asked_privileges(shell: bool, web: bool) -> Seq<Seq<char>> {
    (if shell {
        seq!["user-shell-access"@]
    } else {
        Seq::empty()
    }) + (if web {
        seq!["page-all"@]
    } else {
        Seq::empty()
    })
}

impl AddForm {
    /// An empty form.
    pub fn new() -> (out: AddForm)
        ensures
            out.name@.len() == 0,
            out.descr@.len() == 0,
            out.password@.len() == 0,
            out.authorized_keys@.len() == 0,
            !out.shell_access,
            !out.web_access,
    {
        AddForm {
            name: String::new(),
            descr: String::new(),
            password: String::new(),
            authorized_keys: String::new(),
            shell_access: false,
            web_access: false,
        }
    }

    /// Whether the form may be sent: it has a name and a password.
    pub fn can_create(&self) -> (res: bool)
        ensures
            res == (trimmed(self.name@).len() > 0 && self.password@.len() > 0),
    {
        trim(self.name.as_str()).as_str().unicode_len() > 0
            && self.password.as_str().unicode_len() > 0
    }

    /// The name that is asked for, without the white space around it.
    pub fn user_name(&self) -> (out: String)
        ensures
            out@ == trimmed(self.name@),
    {
        trim(self.name.as_str())
    }

    /// The privileges that are asked for.
    pub fn privileges(&self) -> (out: Vec<String>)
        ensures
            texts(out@) == asked_privileges(self.shell_access, self.web_access),
    {
        let mut out: Vec<String> = Vec::new();
        if self.shell_access {
            out.push("user-shell-access".to_owned());
        }
        if self.web_access {
            out.push("page-all".to_owned());
        }
        assert(texts(out@) =~= asked_privileges(self.shell_access, self.web_access));
        out
    }
}

impl AddForm {
    /// The form as it is sent: the name without the white space around it.
    pub fn submitted(&self) -> (out: AddForm)
        ensures
            out.name@ == trimmed(self.name@),
            out.descr@ == self.descr@,
            out.password@ == self.password@,
            out.authorized_keys@ == self.authorized_keys@,
            out.shell_access == self.shell_access,
            out.web_access == self.web_access,
    {
        AddForm {
            name: self.user_name(),
            descr: self.descr.clone(),
            password: self.password.clone(),
            authorized_keys: self.authorized_keys.clone(),
            shell_access: self.shell_access,
            web_access: self.web_access,
        }
    }
}

/// A user that is being changed.
pub struct EditBuffer {
    pub name: String,
    pub descr: String,
    pub authorized_keys: String,
    pub priv_list: Vec<String>,
    pub disabled: bool,
    pub groups: Vec<String>,
}

impl EditBuffer {
    /// The fields of a user, to be changed.
    pub fn of_user(user: &PfUser) -> (out: EditBuffer)
        ensures
            out.name@ == user.name@,
            out.descr@ == user.descr@,
            out.authorized_keys@ == user.authorized_keys@,
            texts(out.priv_list@) == texts(user.priv_list@),
            out.disabled == user.disabled,
            texts(out.groups@) == texts(user.groups@),
    {
        EditBuffer {
            name: user.name.clone(),
            descr: user.descr.clone(),
            authorized_keys: user.authorized_keys.clone(),
            priv_list: copy_texts(&user.priv_list),
            disabled: user.disabled,
            groups: copy_texts(&user.groups),
        }
    }

    /// The changes that are asked for: all fields as they stand.
    pub fn request(&self) -> (out: UpdateUserReq<'_>)
        ensures
            out.name@ == self.name@,
            opt_str(out.descr) == Some(self.descr@),
            opt_texts(out.priv_list) == Some(texts(self.priv_list@)),
            opt_str(out.authorized_keys) == Some(self.authorized_keys@),
            out.disabled == Some(self.disabled),
            opt_texts(out.groups) == Some(texts(self.groups@)),
    {
        UpdateUserReq {
            name: self.name.as_str(),
            descr: Some(self.descr.as_str()),
            priv_list: Some(copy_texts(&self.priv_list)),
            authorized_keys: Some(self.authorized_keys.as_str()),
            disabled: Some(self.disabled),
            groups: Some(copy_texts(&self.groups)),
        }
    }
}

// ---------- The connection ----------

/// Where the connection to the router stands.
#[derive(Debug, Clone, PartialEq, Eq)]
pub enum ConnState {
    Idle,
    Connecting,
    Connected,
    Failed(String),
}

/// Bytes that are shown of the reason of a failure.
pub const REASON_BYTES: usize = 40;

/// What is shown of the connection.
pub open spec fn conn_text(state: ConnState) -> Seq<char> {
    match state {
        ConnState::Idle => "Idle"@,
        ConnState::Connecting => "Connecting…"@,
        ConnState::Connected => "Connected"@,
        ConnState::Failed(reason) => "Disconnected — "@ + cut(reason@, REASON_BYTES as int),
    }
}

impl ConnState {
    /// What is shown of the connection.
    pub fn label(&self) -> (out: String)
        requires
            self matches ConnState::Failed(reason) ==> REASON_BYTES < encode_utf8(reason@).len()
                ==> is_char_boundary(encode_utf8(reason@), REASON_BYTES as int),
        ensures
            out@ == conn_text(*self),
    {
        match self {
            ConnState::Idle => "Idle".to_owned(),
            ConnState::Connecting => "Connecting…".to_owned(),
            ConnState::Connected => "Connected".to_owned(),
            ConnState::Failed(reason) => concat2(
                "Disconnected — ",
                truncate(reason.as_str(), REASON_BYTES).as_str(),
            ),
        }
    }
}

/// What is said once a connection is there.
pub fn connected_text(recorded: &Option<String>) -> (out: String)
    ensures
        out@ == (match *recorded {
            Some(fingerprint) => "Connected. Recorded host key "@ + fingerprint@,
            None => "Connected."@,
        }),
{
    match recorded {
        Some(fingerprint) => concat2("Connected. Recorded host key ", fingerprint.as_str()),
        None => "Connected.".to_owned(),
    }
}

// ---------- What is said of an operation ----------

/// What is done to a user.
#[derive(Debug, Clone, Copy, PartialEq, Eq)]
pub enum Operation {
    Save,
    Create,
    Delete,
}

impl Operation {
    /// What is said while it runs.
    pub fn pending(&self, name: &str) -> (out: String)
        ensures
            out@ == (match *self {
                Operation::Save => "Saving "@,
                Operation::Create => "Creating "@,
                Operation::Delete => "Deleting "@,
            }) + name@ + "…"@,
    {
        match self {
            Operation::Save => concat3("Saving ", name, "…"),
            Operation::Create => concat3("Creating ", name, "…"),
            Operation::Delete => concat3("Deleting ", name, "…"),
        }
    }

    /// What is said once it is done.
    pub fn done(&self, name: &str) -> (out: String)
        ensures
            out@ == (match *self {
                Operation::Save => "Saved "@,
                Operation::Create => "Created "@,
                Operation::Delete => "Deleted "@,
            }) + name@ + "."@,
    {
        match self {
            Operation::Save => concat3("Saved ", name, "."),
            Operation::Create => concat3("Created ", name, "."),
            Operation::Delete => concat3("Deleted ", name, "."),
        }
    }

    /// What is said where it failed.
    pub fn failed(&self, reason: &str) -> (out: String)
        ensures
            out@ == (match *self {
                Operation::Save => "Save failed: "@,
                Operation::Create => "Create failed: "@,
                Operation::Delete => "Delete failed: "@,
            }) + reason@,
    {
        match self {
            Operation::Save => concat2("Save failed: ", reason),
            Operation::Create => concat2("Create failed: ", reason),
            Operation::Delete => concat2("Delete failed: ", reason),
        }
    }
}

// ---------- Privileges ----------

/// `list` without `name`.
pub open spec fn dropped(list: Seq<Seq<char>>, name: Seq<char>) -> Seq<Seq<char>> {
    list.filter(|p: Seq<char>| p != name)
}

/// The privileges after one of them has been switched.
pub open spec fn switched(list: Seq<Seq<char>>, name: Seq<char>, on: bool) -> Seq<Seq<char>> {
    if list.contains(name) == on {
        list
    } else if on {
        list.push(name)
    } else {
        dropped(list, name)
    }
}

fn drop_privilege(list: &Vec<String>, name: &str) -> (out: Vec<String>)
    ensures
        texts(out@) == dropped(texts(list@), name@),
{
    let ghost all = texts(list@);
    let ghost f = |p: Seq<char>| p != name@;
    let mut out: Vec<String> = Vec::new();
    proof {
        reveal(Seq::filter);
        assert(texts(out@) =~= all.take(0).filter(f));
    }
    for i in 0..list.len()
        invariant
            all == texts(list@),
            f == (|p: Seq<char>| p != name@),
            texts(out@) == all.take(i as int).filter(f),
    {
        let ghost so_far = texts(out@);
        proof {
            reveal(Seq::filter);
            assert(all.take(i + 1).drop_last() =~= all.take(i as int));
            assert(all.take(i + 1).last() == list@[i as int]@);
        }
        if !same_text(list[i].as_str(), name) {
            out.push(list[i].clone());
            assert(texts(out@) =~= so_far.push(list@[i as int]@));
        }
        assert(texts(out@) =~= all.take(i + 1).filter(f));
    }
    assert(all.take(all.len() as int) =~= all);
    out
}

/// Switches a privilege on or off. One that is on already is not added again.
pub fn switch_privilege(list: &mut Vec<String>, name: &str, on: bool)
    ensures
        texts(final(list)@) == switched(texts(old(list)@), name@, on),
{
    let ghost before = texts(list@);
    if contains_text(list.as_slice(), name) == on {
        return;
    }
    if on {
        list.push(name.to_owned());
        assert(texts(list@) =~= before.push(name@));
    } else {
        let kept = drop_privilege(list, name);
        *list = kept;
    }
}

/// Number of keys in a text: of lines that hold more than white space.
pub fn count_keys(s: &str) -> (n: usize)
    ensures
        n == count_filled(lines(s@)),
{
    count_filled_lines(s)
}

/// Whether a deletion is confirmed: the name was typed in.
pub fn is_confirmed(typed: &str, target: &str) -> (res: bool)
    ensures
        res == (typed@ == target@),
{
    same_text(typed, target)
}

/// What is shown below the name of a user.
pub open spec fn user_line(descr: Seq<char>, uid: i64, keys: nat) -> Seq<char> {
    (if descr.len() == 0 {
        "uid "@
    } else {
        descr + " · uid "@
    }) + signed_decimal(uid as int) + " · "@ + decimal(keys) + " keys"@
}

/// What is shown below the name of a user.
pub fn summary(user: &PfUser) -> (out: String)
    ensures
        out@ == user_line(user.descr@, user.uid, count_filled(lines(user.authorized_keys@))),
{
    let mut out = if user.descr.as_str().unicode_len() == 0 {
        "uid ".to_owned()
    } else {
        concat2(user.descr.as_str(), " · uid ")
    };
    out.append(signed_text(user.uid).as_str());
    out.append(" · ");
    out.append(decimal_text(user.key_count() as u64).as_str());
    out.append(" keys");
    out
}

/// A privilege that has been switched is as it was switched, and the others are as
/// they were.
pub proof fn switches_hold(list: Seq<Seq<char>>, name: Seq<char>, on: bool, other: Seq<char>)
    ensures
        switched(list, name, on).contains(name) == on,
        other != name ==> switched(list, name, on).contains(other) == list.contains(other),
    decreases list.len(),
{
    let f = |p: Seq<char>| p != name;
    if list.contains(name) != on {
        if on {
            let all = list.push(name);
            assert(all[list.len() as int] == name);
            if other != name {
                if list.contains(other) {
                    let k = choose|k: int| 0 <= k < list.len() && list[k] == other;
                    assert(all[k] == other);
                }
                if all.contains(other) {
                    let k = choose|k: int| 0 <= k < all.len() && all[k] == other;
                    assert(list[k] == other);
                }
            }
        } else {
            lemma_dropped(list, name, other);
        }
    }
}

proof fn lemma_dropped(list: Seq<Seq<char>>, name: Seq<char>, other: Seq<char>)
    ensures
        !dropped(list, name).contains(name),
        other != name ==> dropped(list, name).contains(other) == list.contains(other),
    decreases list.len(),
{
    reveal(Seq::filter);
    if list.len() > 0 {
        let last = list.last();
        let front = list.drop_last();
        lemma_dropped(front, name, other);
        let inner = dropped(front, name);
        let all = dropped(list, name);
        assert(list =~= front.push(last));
        if list.contains(other) {
            let k = choose|k: int| 0 <= k < list.len() && list[k] == other;
            if k < front.len() {
                assert(front[k] == other);
            }
        }
        if front.contains(other) {
            let k = choose|k: int| 0 <= k < front.len() && front[k] == other;
            assert(list[k] == other);
        }
        if last != name {
            assert(all =~= inner.push(last));
            assert(all[inner.len() as int] == last);
            if inner.contains(other) {
                let k = choose|k: int| 0 <= k < inner.len() && inner[k] == other;
                assert(all[k] == other);
            }
            if last == other {
                assert(list[list.len() - 1] == other);
            }
            assert forall|k: int| 0 <= k < all.len() implies all[k] != name by {
                if k < inner.len() {
                    assert(inner.contains(inner[k]));
                }
            }
            if all.contains(other) {
                let k = choose|k: int| 0 <= k < all.len() && all[k] == other;
                if k < inner.len() {
                    assert(inner[k] == other);
                }
            }
        }
    }
}

/// Each privilege is asked for exactly where it was ticked, and none besides.
pub proof fn ticked_privileges_are_asked_for(shell: bool, web: bool, other: Seq<char>)
    ensures
        asked_privileges(shell, web).contains("user-shell-access"@) <==> shell,
        asked_privileges(shell, web).contains("page-all"@) <==> web,
        asked_privileges(shell, web).contains(other) ==> other == "user-shell-access"@ || other
            == "page-all"@,
        asked_privileges(shell, web).no_duplicates(),
{
    reveal_strlit("user-shell-access");
    reveal_strlit("page-all");
    assert("user-shell-access"@.len() == 17);
    assert("page-all"@.len() == 8);
    let list = asked_privileges(shell, web);
    if shell {
        assert(list[0] == "user-shell-access"@);
    }
    if web {
        assert(list[list.len() - 1] == "page-all"@);
    }
}

/// A reason is shown whole where it has at most forty bytes. A longer one is cut there,
/// and the cut is marked.
pub proof fn long_reasons_are_cut(front: Seq<char>, rest: Seq<char>)
    ensures
        encode_utf8(front).len() <= 40 ==> cut(front, REASON_BYTES as int) == front,
        encode_utf8(front).len() == 40 && rest.len() > 0 ==> cut(
            front + rest,
            REASON_BYTES as int,
        ) == front + "…"@,
{
    let all = encode_utf8(front + rest);
    lemma_encode_concat(front, rest);
    lemma_byte_len_bounds(rest);
    assert(all.subrange(0, encode_utf8(front).len() as int) =~= encode_utf8(front));
    encode_utf8_decode_utf8(front);
}


} // verus!
