//! What becomes of a user that is added, changed, given a password or deleted: laws
//! from the request to what is read from the new document.

use crate::base64::{base64_round_trip, decoded};
use crate::pfusers::document::{
    memberships, next_uid_of, parsed, user_at, user_named, users, users_at,
};
use crate::pfusers::errors::Failure;
use crate::pfusers::membership::covers;
use crate::pfusers::mutation::{first_named, member_ranges, mutated_all, tokens_of, Change};
use crate::pfusers::operations::{
    add_changes, add_outcome, add_ready, added_row, delete_outcome, hashed_row, joined, listed,
    opt_texts, password_outcome, password_ready, update_changes, update_outcome, updated_row,
    AddUserReq, UpdateUserReq,
};
use crate::pfusers::outcomes::{
    added_users_are_read, all_fit, changed_users_are_read, deleted_users_are_gone, events, fits,
    is_group_at, is_user_at, lemma_no_row, lemma_row_named, new_passwords_are_read, reads_back_all,
};
use crate::pfusers::pieces::writable;
use crate::pfusers::round_trip::{regular, system_children};
use crate::pfusers::rows::Row;
use crate::text::texts;
use crate::xml::{lexemes, Token};
use vstd::prelude::*;
use vstd::string::*;
use vstd::utf8::*;

verus! {

// ---------- Documents ----------

/// User `k` of the document is the one of this name: the first that is read under
/// it, and the one that a change of it goes to.
pub open spec fn is_account(xml: Seq<char>, name: Seq<char>, k: int) -> bool {
    &&& parsed(xml) is Ok
    &&& is_user_at(events(xml), name, k)
    &&& users(events(xml)) matches Ok(rows) && k < rows.len() && rows[k].name == name && forall|
        j: int,
    |
        0 <= j < k ==> (#[trigger] rows[j]).name != name
}

/// The document has a group of this name, and changes of it go there.
pub open spec fn has_group(xml: Seq<char>, name: Seq<char>) -> bool {
    exists|k: int| #[trigger] is_group_at(events(xml), name, k)
}

/// Every membership of the uid is written as the number it is.
pub open spec fn members_are_plain(xml: Seq<char>, uid: u32) -> bool {
    covers(events(xml), member_ranges(lexemes(xml)->Ok_0, 0, uid), uid)
}

/// Users can be added: they are read from the `<system>` that changes go to, and so
/// is the next uid.
pub open spec fn takes_users(xml: Seq<char>) -> bool {
    let ts = events(xml);
    &&& parsed(xml) is Ok
    &&& regular(ts)
    &&& users(ts) is Ok
    &&& system_children(ts, "nextuid"@).len() > 0
    &&& first_named(ts, 0, "nextuid"@) == Some(system_children(ts, "nextuid"@)[0].0)
}

proof fn lemma_group_fits(xml: Seq<char>, name: Seq<char>, uid: u32)
    requires
        parsed(xml) is Ok,
        has_group(xml, name),
    ensures
        fits(xml, Change::AddGroupMember(name, uid)),
{
    let ts = tokens_of(lexemes(xml)->Ok_0);
    assert(events(xml) == ts);
    let k = choose|k: int| #[trigger] is_group_at(events(xml), name, k);
    assert(is_group_at(ts, name, k));
    let change = Change::AddGroupMember(name, uid);
    assert(is_group_at(ts, change->AddGroupMember_0, k));
    assert(match change {
        Change::AddGroupMember(group, _) => exists|k: int| #[trigger] is_group_at(ts, group, k),
        _ => false,
    });
}

proof fn lemma_rows_writable(ts: Seq<Token>, rs: Seq<(int, int)>, k: int)
    requires
        users_at(ts, rs) is Ok,
        0 <= k < users_at(ts, rs)->Ok_0.len(),
    ensures
        writable(users_at(ts, rs)->Ok_0[k]),
    decreases rs.len(),
{
    reveal(user_at);
    if rs.len() > 0 {
        let front = users_at(ts, rs.drop_last())->Ok_0;
        if k < front.len() {
            lemma_rows_writable(ts, rs.drop_last(), k);
        }
    }
}

/// What is read can be written again.
proof fn lemma_read_is_writable(ts: Seq<Token>, k: int)
    requires
        users(ts) is Ok,
        0 <= k < users(ts)->Ok_0.len(),
    ensures
        writable(users(ts)->Ok_0[k]),
{
    lemma_rows_writable(ts, system_children(ts, "user"@), k);
}

proof fn lemma_account(xml: Seq<char>, name: Seq<char>, k: int)
    requires
        is_account(xml, name, k),
    ensures
        user_named(events(xml), name) == Some(users(events(xml))->Ok_0[k]),
        writable(users(events(xml))->Ok_0[k]),
{
    lemma_row_named(users(events(xml))->Ok_0, name, k);
    lemma_read_is_writable(events(xml), k);
}

/// The other users are as they were, and this one is in its place.
pub open spec fn only_changed(before: Seq<Row>, after: Seq<Row>, k: int) -> bool {
    &&& after.len() == before.len()
    &&& forall|j: int| 0 <= j < before.len() && j != k ==> #[trigger] after[j] == before[j]
}

// ---------- Changing ----------

proof fn lemma_update_fits(xml: Seq<char>, row: Row, groups: Option<Seq<Seq<char>>>, k: int)
    requires
        is_account(xml, row.name, k),
        writable(row),
        groups matches Some(list) ==> members_are_plain(xml, row.uid) && forall|i: int|
            0 <= i < list.len() ==> has_group(xml, #[trigger] list[i]),
    ensures
        all_fit(xml, update_changes(row, groups)),
{
    reveal(all_fit);
    let all = update_changes(row, groups);
    assert forall|i: int| 0 <= i < all.len() implies fits(xml, #[trigger] all[i]) by {
        let ts = tokens_of(lexemes(xml)->Ok_0);
        assert(events(xml) == ts);
        if i == 0 {
            assert(all[i] == Change::ReplaceUser(row));
            assert(is_user_at(ts, row.name, k));
        } else if i == 1 {
            assert(all[i] == Change::RemoveGroupMembership(row.uid));
        } else {
            let list = groups->0;
            assert(all[i] == listed(list, row.uid)[i - 2]);
            assert(has_group(xml, list[i - 2]));
            lemma_group_fits(xml, list[i - 2], row.uid);
        }
    }
}

/// A user that is changed reads back with every field that the request gives as it
/// is given, the public keys once they are decoded, and every field that it leaves
/// out as it was; and so do the name, the uid, the scope, the expiry date and the
/// hashes. Where groups are given the user is in these and in no others; where none
/// are given the memberships are as they were. All others are as they were.
pub proof fn requested_changes_are_read<'a>(
    xml: Seq<char>,
    req: UpdateUserReq<'a>,
    new: Seq<char>,
    k: int,
)
    requires
        is_account(xml, req.name@, k),
        req.groups matches Some(list) ==> members_are_plain(xml, users(events(xml))->Ok_0[k].uid)
            && forall|i: int| 0 <= i < list@.len() ==> has_group(xml, (#[trigger] list@[i])@),
        update_outcome(xml, req) is Ok,
        update_outcome(xml, req)->Ok_0.new_xml == new,
        reads_back_all(
            xml,
            update_changes(
                updated_row(user_named(events(xml), req.name@)->0, req),
                opt_texts(req.groups),
            ),
            new,
        ),
    ensures
        parsed(new) is Ok,
        users(events(new)) matches Ok(after) && {
            let before = users(events(xml))->Ok_0;
            let old = before[k];
            let now = after[k];
            &&& only_changed(before, after, k)
            &&& user_named(events(new), req.name@) == Some(now)
            &&& req.disabled matches Some(d) ==> now.disabled == d
            &&& req.disabled is None ==> now.disabled == old.disabled
            &&& req.descr matches Some(d) ==> now.descr == d@
            &&& req.descr is None ==> now.descr == old.descr
            &&& req.priv_list matches Some(p) ==> now.priv_list == p@.map_values(|s: String| s@)
            &&& req.priv_list is None ==> now.priv_list == old.priv_list
            &&& req.authorized_keys matches Some(keys) ==> decoded(now.authorized_keys_b64)
                == encode_utf8(keys@)
            &&& req.authorized_keys is None ==> now.authorized_keys_b64 == old.authorized_keys_b64
            &&& now.name == req.name@
            &&& now.uid == old.uid
            &&& now.scope == old.scope
            &&& now.expires == old.expires
            &&& now.bcrypt_hash == old.bcrypt_hash
            &&& now.sha512_hash == old.sha512_hash
            &&& now.md5_hash == old.md5_hash
        },
        req.groups is None ==> memberships(events(new)) == memberships(events(xml)),
        req.groups matches Some(list) ==> memberships(events(new)) is Ok && forall|
            m: (u32, Seq<char>),
        | #[trigger]
            memberships(events(new))->Ok_0.contains(m) <==> if m.0 == users(
                events(xml),
            )->Ok_0[k].uid {
                exists|i: int| 0 <= i < list@.len() && (#[trigger] list@[i])@ == m.1
            } else {
                memberships(events(xml))->Ok_0.contains(m)
            },
{
    let before = users(events(xml))->Ok_0;
    let old = before[k];
    lemma_account(xml, req.name@, k);
    let row = updated_row(old, req);
    let groups = opt_texts(req.groups);
    if let Some(list) = req.groups {
        assert forall|i: int| 0 <= i < texts(list@).len() implies has_group(
            xml,
            #[trigger] texts(list@)[i],
        ) by {
            assert(has_group(xml, list@[i]@));
        }
    }
    lemma_update_fits(xml, row, groups, k);
    changed_users_are_read(xml, row, groups, new, k);
    if let Some(keys) = req.authorized_keys {
        base64_round_trip(encode_utf8(keys@));
    }
    if let Some(p) = req.priv_list {
        assert(texts(p@) =~= p@.map_values(|s: String| s@));
    }
    let after = before.update(k, row);
    assert(after[k] == row);
    assert forall|j: int| 0 <= j < k implies (#[trigger] after[j]).name != req.name@ by {
        assert(after[j] == before[j]);
    }
    lemma_row_named(after, req.name@, k);
    if let Some(list) = req.groups {
        assert forall|m: (u32, Seq<char>)| #[trigger]
            memberships(events(new))->Ok_0.contains(m) <==> (if m.0 == old.uid {
                exists|i: int| 0 <= i < list@.len() && (#[trigger] list@[i])@ == m.1
            } else {
                memberships(events(xml))->Ok_0.contains(m)
            }) by {
            if texts(list@).contains(m.1) {
                let i = choose|i: int| 0 <= i < texts(list@).len() && texts(list@)[i] == m.1;
                assert(list@[i]@ == m.1);
            }
            if exists|i: int| 0 <= i < list@.len() && (#[trigger] list@[i])@ == m.1 {
                let i = choose|i: int| 0 <= i < list@.len() && (#[trigger] list@[i])@ == m.1;
                assert(texts(list@)[i] == m.1);
            }
        }
    }
}

// ---------- Adding ----------

proof fn lemma_joined_change(groups: Seq<Seq<char>>, uid: u32, i: int)
    requires
        0 <= i < joined(groups, uid).len(),
    ensures
        joined(groups, uid)[i] matches Change::AddGroupMember(g, u) && u == uid && groups.contains(
            g,
        ),
    decreases groups.len(),
{
    if groups.len() > 0 {
        let front = groups.drop_last();
        let inner = joined(front, uid);
        assert(groups[groups.len() - 1] == groups.last());
        if i < inner.len() {
            lemma_joined_change(front, uid, i);
            let g = inner[i]->AddGroupMember_0;
            let n = choose|n: int| 0 <= n < front.len() && front[n] == g;
            assert(groups[n] == g);
            assert(joined(groups, uid)[i] == inner[i]);
        }
    }
}

proof fn lemma_add_fits(xml: Seq<char>, row: Row, groups: Seq<Seq<char>>)
    requires
        takes_users(xml),
        writable(row),
        has_group(xml, "all"@),
        forall|i: int| 0 <= i < groups.len() ==> has_group(xml, #[trigger] groups[i]),
    ensures
        all_fit(xml, add_changes(row, groups)),
{
    reveal(all_fit);
    let all = add_changes(row, groups);
    assert forall|i: int| 0 <= i < all.len() implies fits(xml, #[trigger] all[i]) by {
        if i >= 3 {
            assert(all[i] == joined(groups, row.uid)[i - 3]);
            lemma_joined_change(groups, row.uid, i - 3);
            let g = all[i]->AddGroupMember_0;
            let n = choose|n: int| 0 <= n < groups.len() && groups[n] == g;
            assert(has_group(xml, groups[n]));
            lemma_group_fits(xml, g, row.uid);
        } else if i == 2 {
            assert(all[i] == Change::AddGroupMember("all"@, row.uid));
            lemma_group_fits(xml, "all"@, row.uid);
        } else if i == 1 {
            assert(all[i] == Change::SetNextUid((row.uid + 1) as u32));
            assert(events(xml) == tokens_of(lexemes(xml)->Ok_0));
        } else {
            assert(all[i] == Change::AppendUser(row));
            assert(events(xml) == tokens_of(lexemes(xml)->Ok_0));
        }
    }
}

/// A user that is added reads back behind the others, with exactly the name, the
/// description, the privileges in their order and, once they are decoded, the public
/// keys of the request; with the uid that was next, and the hash; enabled, without an
/// expiry date, and without another kind of hash. It is in `all` and in the groups of
/// the request; no other membership is read than before. The next uid is one more.
pub proof fn requested_users_are_read<'a>(
    xml: Seq<char>,
    req: AddUserReq<'a>,
    uid: u32,
    hash: Seq<char>,
    new: Seq<char>,
)
    requires
        takes_users(xml),
        has_group(xml, "all"@),
        forall|i: int| 0 <= i < req.groups@.len() ==> has_group(xml, (#[trigger] req.groups@[i])@),
        add_ready(xml, req) == Ok::<u32, Failure>(uid),
        reads_back_all(
            xml,
            add_changes(added_row(req, uid, hash), texts(req.groups@)),
            new,
        ),
    ensures
        next_uid_of(events(xml)) == Ok::<u32, Failure>(uid),
        user_named(events(xml), req.name@) is None,
        parsed(new) is Ok,
        users(events(new)) matches Ok(after) && {
            let before = users(events(xml))->Ok_0;
            let now = after[before.len() as int];
            &&& after.len() == before.len() + 1
            &&& forall|j: int| 0 <= j < before.len() ==> #[trigger] after[j] == before[j]
            &&& user_named(events(new), req.name@) == Some(now)
            &&& now.name == req.name@
            &&& now.descr == req.descr@
            &&& now.uid == uid
            &&& now.scope == "user"@
            &&& now.expires is None
            &&& !now.disabled
            &&& now.priv_list == req.priv_list@.map_values(|s: String| s@)
            &&& decoded(now.authorized_keys_b64) == encode_utf8(req.authorized_keys@)
            &&& now.bcrypt_hash == Some(hash)
            &&& now.sha512_hash is None
            &&& now.md5_hash is None
        },
        next_uid_of(events(new)) matches Ok(next) && next == uid + 1,
        memberships(events(new)) is Ok,
        forall|m: (u32, Seq<char>)| #[trigger]
            memberships(events(new))->Ok_0.contains(m) <==> memberships(
                events(xml),
            )->Ok_0.contains(m) || (m.0 == uid && (m.1 == "all"@ || exists|i: int|
                0 <= i < req.groups@.len() && (#[trigger] req.groups@[i])@ == m.1)),
{
    let row = added_row(req, uid, hash);
    let groups = texts(req.groups@);
    assert forall|i: int| 0 <= i < groups.len() implies has_group(xml, #[trigger] groups[i]) by {
        assert(has_group(xml, req.groups@[i]@));
    }
    lemma_add_fits(xml, row, groups);
    added_users_are_read(xml, row, groups, new);
    base64_round_trip(encode_utf8(req.authorized_keys@));
    assert(texts(req.priv_list@) =~= req.priv_list@.map_values(|s: String| s@));
    let before = users(events(xml))->Ok_0;
    let after = before.push(row);
    lemma_no_row(before, req.name@);
    assert forall|j: int| 0 <= j < before.len() implies (#[trigger] after[j]).name != req.name@ by {
        assert(after[j] == before[j]);
    }
    lemma_row_named(after, req.name@, before.len() as int);
    assert forall|m: (u32, Seq<char>)| #[trigger]
        memberships(events(new))->Ok_0.contains(m) <==> memberships(
            events(xml),
        )->Ok_0.contains(m) || (m.0 == uid && (m.1 == "all"@ || exists|i: int|
            0 <= i < req.groups@.len() && (#[trigger] req.groups@[i])@ == m.1)) by {
        if groups.contains(m.1) {
            let i = choose|i: int| 0 <= i < groups.len() && groups[i] == m.1;
            assert(req.groups@[i]@ == m.1);
        }
        if exists|i: int| 0 <= i < req.groups@.len() && (#[trigger] req.groups@[i])@ == m.1 {
            let i = choose|i: int| 0 <= i < req.groups@.len() && (#[trigger] req.groups@[i])@
                == m.1;
            assert(groups[i] == m.1);
        }
    }
}

// ---------- Passwords ----------

/// A user whose password is set reads back with the new hash and no other kind of
/// hash; everything else about it, and all others, are as they were.
pub proof fn requested_passwords_are_read(
    xml: Seq<char>,
    name: Seq<char>,
    password: Seq<char>,
    hash: Seq<char>,
    new: Seq<char>,
    k: int,
)
    requires
        is_account(xml, name, k),
        password.len() > 0,
        reads_back_all(
            xml,
            seq![Change::ReplaceUser(hashed_row(password_ready(xml, name, password)->Ok_0, hash))],
            new,
        ),
    ensures
        parsed(new) is Ok,
        users(events(new)) matches Ok(after) && {
            let before = users(events(xml))->Ok_0;
            let old = before[k];
            let now = after[k];
            &&& only_changed(before, after, k)
            &&& user_named(events(new), name) == Some(now)
            &&& now.bcrypt_hash == Some(hash)
            &&& now.sha512_hash is None
            &&& now.md5_hash is None
            &&& now.name == name
            &&& now.descr == old.descr
            &&& now.uid == old.uid
            &&& now.scope == old.scope
            &&& now.expires == old.expires
            &&& now.disabled == old.disabled
            &&& now.priv_list == old.priv_list
            &&& now.authorized_keys_b64 == old.authorized_keys_b64
        },
        memberships(events(new)) == memberships(events(xml)),
        next_uid_of(events(new)) == next_uid_of(events(xml)),
{
    let before = users(events(xml))->Ok_0;
    lemma_account(xml, name, k);
    let row = hashed_row(before[k], hash);
    lemma_update_fits(xml, row, None, k);
    assert(update_changes(row, None) =~= seq![Change::ReplaceUser(row)]);
    new_passwords_are_read(xml, row, new, k);
    let after = before.update(k, row);
    assert(after[k] == row);
    assert forall|j: int| 0 <= j < k implies (#[trigger] after[j]).name != name by {
        assert(after[j] == before[j]);
    }
    lemma_row_named(after, name, k);
}

// ---------- Deleting ----------

/// A user that is deleted is not read any more, nor is any membership of its uid; all
/// others, and all other memberships, are as they were. The user with the uid zero is
/// not deleted.
#[verifier::rlimit(30)]
pub proof fn requested_deletions_are_read(
    xml: Seq<char>,
    name: Seq<char>,
    new: Seq<char>,
    k: int,
)
    requires
        is_account(xml, name, k),
        forall|j: int|
            0 <= j < users(events(xml))->Ok_0.len() && j != k ==> (#[trigger] users(
                events(xml),
            )->Ok_0[j]).name != name,
        members_are_plain(xml, users(events(xml))->Ok_0[k].uid),
        delete_outcome(xml, name) is Ok,
        delete_outcome(xml, name)->Ok_0.new_xml == new,
        reads_back_all(
            xml,
            seq![
                Change::RemoveUser(name),
                Change::RemoveGroupMembership(user_named(events(xml), name)->0.uid),
            ],
            new,
        ),
    ensures
        users(events(xml))->Ok_0[k].uid != 0,
        parsed(new) is Ok,
        user_named(events(new), name) is None,
        users(events(new)) matches Ok(after) && {
            let before = users(events(xml))->Ok_0;
            &&& after.len() == before.len() - 1
            &&& forall|j: int| 0 <= j < k ==> #[trigger] after[j] == before[j]
            &&& forall|j: int| k < j < before.len() ==> after[j - 1] == #[trigger] before[j]
        },
        memberships(events(new)) is Ok,
        forall|m: (u32, Seq<char>)| #[trigger]
            memberships(events(new))->Ok_0.contains(m) <==> memberships(
                events(xml),
            )->Ok_0.contains(m) && m.0 != users(events(xml))->Ok_0[k].uid,
{
    reveal(all_fit);
    let before = users(events(xml))->Ok_0;
    lemma_account(xml, name, k);
    let uid = before[k].uid;
    let changes = seq![Change::RemoveUser(name), Change::RemoveGroupMembership(uid)];
    assert forall|i: int| 0 <= i < changes.len() implies fits(xml, #[trigger] changes[i]) by {
        assert(is_user_at(events(xml), name, k));
    }
    deleted_users_are_gone(xml, name, uid, new, k);
    let after = before.remove(k);
    assert forall|j: int| 0 <= j < after.len() implies (#[trigger] after[j]).name != name by {
        if j < k {
            assert(after[j] == before[j]);
        } else {
            assert(after[j] == before[j + 1]);
        }
    }
    lemma_no_row(after, name);
    assert forall|m: (u32, Seq<char>)| #[trigger]
        memberships(events(new))->Ok_0.contains(m) <==> memberships(
            events(xml),
        )->Ok_0.contains(m) && m.0 != uid by {
        crate::pfusers::outcomes::lemma_without(memberships(events(xml))->Ok_0, uid, m);
    }
}

// ---------- From requests to changes ----------

/// What each operation does to the document: a new user is appended, the next uid is one
/// more, and the user joins `all` and the groups that were asked for; a user that is
/// changed, or gets a password, is replaced, and joins exactly the groups that were asked
/// for, where any were; a user that is deleted is taken out, and so are its memberships.
pub proof fn requests_become_changes<'a, 'b>(
    xml: Seq<char>,
    add: AddUserReq<'a>,
    update: UpdateUserReq<'b>,
    name: Seq<char>,
    password: Seq<char>,
    hash: Seq<char>,
)
    ensures
        add_outcome(xml, add, hash) matches Ok(o) ==> {
            let uid = next_uid_of(events(xml))->Ok_0;
            mutated_all(
                xml,
                seq![
                    Change::AppendUser(added_row(add, uid, hash)),
                    Change::SetNextUid((uid + 1) as u32),
                    Change::AddGroupMember("all"@, uid),
                ] + joined(texts(add.groups@), uid),
            ) == Ok::<Seq<char>, Failure>(o.new_xml)
        },
        update_outcome(xml, update) matches Ok(o) ==> {
            let row = updated_row(user_named(events(xml), update.name@)->0, update);
            mutated_all(
                xml,
                match update.groups {
                    None => seq![Change::ReplaceUser(row)],
                    Some(list) => seq![
                        Change::ReplaceUser(row),
                        Change::RemoveGroupMembership(row.uid),
                    ] + Seq::new(
                        list@.len(),
                        |i: int| Change::AddGroupMember(list@[i]@, row.uid),
                    ),
                },
            ) == Ok::<Seq<char>, Failure>(o.new_xml)
        },
        delete_outcome(xml, name) matches Ok(o) ==> mutated_all(
            xml,
            seq![
                Change::RemoveUser(name),
                Change::RemoveGroupMembership(user_named(events(xml), name)->0.uid),
            ],
        ) == Ok::<Seq<char>, Failure>(o.new_xml),
        password_outcome(xml, name, password, hash) matches Ok(o) ==> mutated_all(
            xml,
            seq![Change::ReplaceUser(hashed_row(user_named(events(xml), name)->0, hash))],
        ) == Ok::<Seq<char>, Failure>(o.new_xml),
{
    if let Some(list) = update.groups {
        let uid = updated_row(user_named(events(xml), update.name@)->0, update).uid;
        assert(listed(texts(list@), uid) =~= Seq::new(
            list@.len(),
            |i: int| Change::AddGroupMember(list@[i]@, uid),
        ));
    }
}

/// A user joins each group that was asked for, other than `all`, and no other group.
pub proof fn groups_are_joined(groups: Seq<Seq<char>>, uid: u32, change: Change)
    ensures
        joined(groups, uid).contains(change) <==> exists|i: int|
            0 <= i < groups.len() && #[trigger] groups[i] != "all"@ && change
                == Change::AddGroupMember(groups[i], uid),
    decreases groups.len(),
{
    if groups.len() > 0 {
        let less = groups.drop_last();
        let last = groups.last();
        groups_are_joined(less, uid, change);
        let inner = joined(less, uid);
        let all = joined(groups, uid);
        assert(groups[groups.len() - 1] == last);
        if all.contains(change) {
            let k = choose|k: int| 0 <= k < all.len() && all[k] == change;
            if k < inner.len() {
                assert(inner[k] == change);
                let i = choose|i: int|
                    0 <= i < less.len() && #[trigger] less[i] != "all"@ && change
                        == Change::AddGroupMember(less[i], uid);
                assert(groups[i] == less[i]);
            }
        }
        if exists|i: int|
            0 <= i < groups.len() && #[trigger] groups[i] != "all"@ && change
                == Change::AddGroupMember(groups[i], uid) {
            let i = choose|i: int|
                0 <= i < groups.len() && #[trigger] groups[i] != "all"@ && change
                    == Change::AddGroupMember(groups[i], uid);
            if i < less.len() {
                assert(less[i] == groups[i]);
                let k = choose|k: int| 0 <= k < inner.len() && inner[k] == change;
                assert(all[k] == change);
            } else {
                assert(all[inner.len() as int] == change);
            }
        }
    }
}


} // verus!
