//! What is read after an operation on a user.

use crate::pfusers::document::{
    memberships, next_uid_of, parsed, row_named, system_range, user_named, users,
};
use crate::pfusers::errors::Failure;
use crate::pfusers::membership::{all_beside, covers, reads_back, without};
use crate::pfusers::mutation::{
    first_named, indent_of, lemma_before, member_line, member_ranges, mutated, named_element,
    tokens_of, user_indent, Change,
};
use crate::pfusers::operations::{
    add_changes, check_failure, joined, listed, update_changes, Expectation,
};
use crate::pfusers::pieces::writable;
use crate::pfusers::preserved::keeps_outside;
use crate::pfusers::round_trip::{
    add_group_member_round_trip, append_user_round_trip, lemma_child_place, lemma_system, regular,
    system, system_children,
};
use crate::pfusers::rows::{user_block, Row};
use crate::pfusers::sequels::{lemma_add_fits, lemma_delete_fits, lemma_update_fits};
use crate::tree::child_text;
use crate::xml::{before, bom, lexemes, source, well_scanned, Token};
use vstd::prelude::*;

verus! {

// ---------- Several changes ----------

/// The text of a document is that of its events, and each of them is read as it
/// stands there.
#[verifier::opaque]
pub open spec fn scanned(xml: Seq<char>) -> bool {
    &&& lexemes(xml) matches Ok(ls)
    &&& well_scanned(ls)
    &&& xml == bom(xml) + source(ls)
}

/// Each of the changes is read back from the document that it leaves, in which it
/// has touched its own place and nothing else.
pub open spec fn reads_back_all(xml: Seq<char>, changes: Seq<Change>, new: Seq<char>) -> bool
    decreases changes.len(),
{
    if changes.len() == 0 {
        new == xml
    } else {
        &&& scanned(xml)
        &&& mutated(xml, changes[0]) matches Ok(next)
        &&& reads_back(xml, changes[0], next)
        &&& keeps_outside(xml, changes[0], next)
        &&& reads_back_all(next, changes.drop_first(), new)
    }
}

/// What a document says.
pub open spec fn events(xml: Seq<char>) -> Seq<Token> {
    parsed(xml)->Ok_0
}

/// The user that a change names is the k-th of the document, and no other element
/// is taken for it.
pub open spec fn is_user_at(ts: Seq<Token>, name: Seq<char>, k: int) -> bool {
    &&& system_range(ts) is Ok
    &&& 0 <= k < system_children(ts, "user"@).len()
    &&& named_element(ts, 0, "user"@, name) == Some(system_children(ts, "user"@)[k])
}

/// The group that a change names is the k-th of the document, and no other element
/// is taken for it.
pub open spec fn is_group_at(ts: Seq<Token>, name: Seq<char>, k: int) -> bool {
    &&& system_range(ts) is Ok
    &&& 0 <= k < system_children(ts, "group"@).len()
    &&& named_element(ts, 0, "group"@, name) == Some(system_children(ts, "group"@)[k])
    &&& child_text(ts, system_children(ts, "group"@)[k], "name"@) == Some(name)
}

/// A change finds in a document what it names, and finds it where it is read.
pub open spec fn fits(xml: Seq<char>, change: Change) -> bool {
    let ls = lexemes(xml)->Ok_0;
    let ts = tokens_of(ls);
    &&& lexemes(xml) is Ok
    &&& system_range(ts) is Ok
    &&& match change {
        Change::AppendUser(row) => regular(ts) && users(ts) is Ok && writable(row),
        Change::ReplaceUser(row) => users(ts) is Ok && writable(row) && exists|k: int|
            #[trigger] is_user_at(ts, row.name, k),
        Change::RemoveUser(name) => users(ts) is Ok && exists|k: int| #[trigger]
            is_user_at(ts, name, k),
        Change::AddGroupMember(group, _) => exists|k: int| #[trigger] is_group_at(ts, group, k),
        Change::RemoveGroupMembership(uid) => covers(ts, member_ranges(ls, 0, uid), uid),
        Change::SetNextUid(_) => system_children(ts, "nextuid"@).len() > 0 && first_named(
            ts,
            0,
            "nextuid"@,
        ) == Some(system_children(ts, "nextuid"@)[0].0),
    }
}

/// No member that holds the uid is in the `<nextuid>` that is read.
pub open spec fn spares_next_uid(xml: Seq<char>, uid: u32) -> bool {
    all_beside(events(xml), member_ranges(lexemes(xml)->Ok_0, 0, uid))
}

/// Every one of the changes fits the document as it is.
#[verifier::opaque]
pub open spec fn all_fit(xml: Seq<char>, changes: Seq<Change>) -> bool {
    forall|i: int| 0 <= i < changes.len() ==> fits(xml, #[trigger] changes[i])
}

/// Every one of the changes fits the document that the one before it left.
pub open spec fn fit_all(xml: Seq<char>, changes: Seq<Change>) -> bool
    decreases changes.len(),
{
    changes.len() > 0 ==> fits(xml, changes[0]) && (mutated(xml, changes[0]) matches Ok(next)
        ==> fit_all(next, changes.drop_first()))
}

proof fn lemma_fits(xml: Seq<char>, change: Change)
    requires
        fits(xml, change),
    ensures
        parsed(xml) is Ok,
        events(xml) == tokens_of(lexemes(xml)->Ok_0),
        memberships(events(xml)) is Ok,
{
}

// ---------- Memberships ----------

proof fn lemma_inserted(
    list: Seq<(u32, Seq<char>)>,
    i: int,
    x: (u32, Seq<char>),
    m: (u32, Seq<char>),
)
    requires
        0 <= i <= list.len(),
    ensures
        list.insert(i, x).contains(m) <==> list.contains(m) || m == x,
{
    let all = list.insert(i, x);
    assert(all[i] == x);
    if list.contains(m) {
        let k = choose|k: int| 0 <= k < list.len() && list[k] == m;
        if k < i {
            assert(all[k] == m);
        } else {
            assert(all[k + 1] == m);
        }
    }
    if all.contains(m) {
        let k = choose|k: int| 0 <= k < all.len() && all[k] == m;
        if k < i {
            assert(list[k] == m);
        } else if k > i {
            assert(list[k - 1] == m);
        }
    }
}

pub proof fn lemma_without(list: Seq<(u32, Seq<char>)>, uid: u32, m: (u32, Seq<char>))
    ensures
        without(list, uid).contains(m) <==> list.contains(m) && m.0 != uid,
    decreases list.len(),
{
    if list.len() > 0 {
        let front = list.drop_last();
        let last = list.last();
        lemma_without(front, uid, m);
        assert(list =~= front.push(last));
        assert(list[list.len() - 1] == last);
        if front.contains(m) {
            let k = choose|k: int| 0 <= k < front.len() && front[k] == m;
            assert(list[k] == m);
        }
        if list.contains(m) && m != last {
            let k = choose|k: int| 0 <= k < list.len() && list[k] == m;
            assert(front[k] == m);
        }
        let inner = without(front, uid);
        let all = without(list, uid);
        if last.0 != uid {
            assert(all[inner.len() as int] == last);
            if inner.contains(m) {
                let k = choose|k: int| 0 <= k < inner.len() && inner[k] == m;
                assert(all[k] == m);
            }
            if all.contains(m) && m != last {
                let k = choose|k: int| 0 <= k < all.len() && all[k] == m;
                assert(inner[k] == m);
            }
        }
    }
}

/// The changes are memberships of `uid`, and `group` is among them.
pub open spec fn joins(changes: Seq<Change>, uid: u32, group: Seq<char>) -> bool {
    exists|i: int| 0 <= i < changes.len() && #[trigger] changes[i] == Change::AddGroupMember(
        group,
        uid,
    )
}

proof fn lemma_members(xml: Seq<char>, changes: Seq<Change>, new: Seq<char>, uid: u32)
    requires
        parsed(xml) is Ok,
        memberships(events(xml)) is Ok,
        reads_back_all(xml, changes, new),
        fit_all(xml, changes),
        forall|i: int|
            0 <= i < changes.len() ==> (#[trigger] changes[i] matches Change::AddGroupMember(_, u)
                && u == uid),
    ensures
        parsed(new) is Ok,
        users(events(new)) == users(events(xml)),
        next_uid_of(events(new)) == next_uid_of(events(xml)),
        memberships(events(new)) is Ok,
        forall|m: (u32, Seq<char>)| #[trigger]
            memberships(events(new))->Ok_0.contains(m) <==> memberships(
                events(xml),
            )->Ok_0.contains(m) || (m.0 == uid && joins(changes, uid, m.1)),
    decreases changes.len(),
{
    if changes.len() > 0 {
        let change = changes[0];
        lemma_fits(xml, change);
        let group = change->AddGroupMember_0;
        assert(change == Change::AddGroupMember(group, uid));
        let next = mutated(xml, change)->Ok_0;
        let ts = events(xml);
        let k = choose|k: int| #[trigger] is_group_at(ts, group, k);
        assert(system_children(ts, "group"@)[k] == system_children(ts, "group"@)[k]);
        let before = memberships(ts)->Ok_0;
        let i = choose|i: int|
            0 <= i <= before.len() && memberships(events(next))->Ok_0 == #[trigger] before.insert(
                i,
                (uid, group),
            );
        let rest = changes.drop_first();
        assert forall|j: int| 0 <= j < rest.len() implies (#[trigger] rest[j] matches
            Change::AddGroupMember(_, u) && u == uid) by {
            assert(rest[j] == changes[j + 1]);
        }
        lemma_members(next, rest, new, uid);
        assert forall|m: (u32, Seq<char>)| #[trigger]
            memberships(events(new))->Ok_0.contains(m) <==> before.contains(m) || (m.0 == uid
                && joins(changes, uid, m.1)) by {
            lemma_inserted(before, i, (uid, group), m);
            if joins(changes, uid, m.1) {
                let j = choose|j: int|
                    0 <= j < changes.len() && #[trigger] changes[j] == Change::AddGroupMember(
                        m.1,
                        uid,
                    );
                if j > 0 {
                    assert(rest[j - 1] == changes[j]);
                }
            }
            if joins(rest, uid, m.1) {
                let j = choose|j: int|
                    0 <= j < rest.len() && #[trigger] rest[j] == Change::AddGroupMember(
                        m.1,
                        uid,
                    );
                assert(changes[j + 1] == rest[j]);
            }
            if m == (uid, group) {
                assert(changes[0] == Change::AddGroupMember(m.1, uid));
            }
        }
    }
}

proof fn lemma_joined(groups: Seq<Seq<char>>, uid: u32, group: Seq<char>)
    ensures
        forall|i: int|
            0 <= i < joined(groups, uid).len() ==> (#[trigger] joined(groups, uid)[i] matches
                Change::AddGroupMember(_, u) && u == uid),
        joins(joined(groups, uid), uid, group) <==> groups.contains(group) && group != "all"@,
    decreases groups.len(),
{
    if groups.len() > 0 {
        let front = groups.drop_last();
        let last = groups.last();
        lemma_joined(front, uid, group);
        let inner = joined(front, uid);
        let all = joined(groups, uid);
        assert(groups[groups.len() - 1] == last);
        if front.contains(group) {
            let k = choose|k: int| 0 <= k < front.len() && front[k] == group;
            assert(groups[k] == group);
        }
        if groups.contains(group) && group != last {
            let k = choose|k: int| 0 <= k < groups.len() && groups[k] == group;
            assert(front[k] == group);
        }
        if last != "all"@ {
            assert(all[inner.len() as int] == Change::AddGroupMember(last, uid));
            assert forall|i: int| 0 <= i < all.len() implies (#[trigger] all[i] matches
                Change::AddGroupMember(_, u) && u == uid) by {
                if i < inner.len() {
                    assert(all[i] == inner[i]);
                }
            }
            if joins(inner, uid, group) {
                let j = choose|j: int|
                    0 <= j < inner.len() && #[trigger] inner[j] == Change::AddGroupMember(
                        group,
                        uid,
                    );
                assert(all[j] == inner[j]);
            }
            if joins(all, uid, group) && group != last {
                let j = choose|j: int|
                    0 <= j < all.len() && #[trigger] all[j] == Change::AddGroupMember(group, uid);
                assert(j < inner.len());
                assert(inner[j] == all[j]);
            }
        }
    }
}

/// The memberships in `all` and in further groups.
proof fn lemma_all_joined(groups: Seq<Seq<char>>, uid: u32, group: Seq<char>)
    ensures
        ({
            let list = seq![Change::AddGroupMember("all"@, uid)] + joined(groups, uid);
            &&& forall|i: int|
                0 <= i < list.len() ==> (#[trigger] list[i] matches Change::AddGroupMember(_, u)
                    && u == uid)
            &&& joins(list, uid, group) <==> groups.contains(group) || group == "all"@
        }),
{
    lemma_joined(groups, uid, group);
    let inner = joined(groups, uid);
    let list = seq![Change::AddGroupMember("all"@, uid)] + inner;
    assert(list[0] == Change::AddGroupMember("all"@, uid));
    assert forall|i: int| 0 <= i < list.len() implies (#[trigger] list[i] matches
        Change::AddGroupMember(_, u) && u == uid) by {
        if i > 0 {
            assert(list[i] == inner[i - 1]);
        }
    }
    if joins(inner, uid, group) {
        let j = choose|j: int|
            0 <= j < inner.len() && #[trigger] inner[j] == Change::AddGroupMember(group, uid);
        assert(list[j + 1] == inner[j]);
    }
    if joins(list, uid, group) && group != "all"@ {
        let j = choose|j: int|
            0 <= j < list.len() && #[trigger] list[j] == Change::AddGroupMember(group, uid);
        assert(inner[j - 1] == list[j]);
    }
}

proof fn lemma_listed(groups: Seq<Seq<char>>, uid: u32, group: Seq<char>)
    ensures
        joins(listed(groups, uid), uid, group) <==> groups.contains(group),
{
    let list = listed(groups, uid);
    if groups.contains(group) {
        let k = choose|k: int| 0 <= k < groups.len() && groups[k] == group;
        assert(list[k] == Change::AddGroupMember(group, uid));
    }
    if joins(list, uid, group) {
        let k = choose|k: int|
            0 <= k < list.len() && #[trigger] list[k] == Change::AddGroupMember(group, uid);
        assert(groups[k] == group);
    }
}

// ---------- Users by name ----------

pub proof fn lemma_row_named(rows: Seq<Row>, name: Seq<char>, k: int)
    requires
        0 <= k < rows.len(),
        rows[k].name == name,
        forall|j: int| 0 <= j < k ==> (#[trigger] rows[j]).name != name,
    ensures
        row_named(rows, name) == Some(rows[k]),
    decreases k,
{
    if k > 0 {
        assert(rows[0].name != name);
        let rest = rows.drop_first();
        assert forall|j: int| 0 <= j < k - 1 implies (#[trigger] rest[j]).name != name by {
            assert(rest[j] == rows[j + 1]);
        }
        lemma_row_named(rest, name, k - 1);
    }
}

pub proof fn lemma_no_row(rows: Seq<Row>, name: Seq<char>)
    ensures
        row_named(rows, name) is None <==> forall|j: int|
            0 <= j < rows.len() ==> (#[trigger] rows[j]).name != name,
    decreases rows.len(),
{
    if rows.len() > 0 {
        let rest = rows.drop_first();
        lemma_no_row(rest, name);
        if rows[0].name != name {
            if forall|j: int| 0 <= j < rest.len() ==> (#[trigger] rest[j]).name != name {
                assert forall|j: int| 0 <= j < rows.len() implies (#[trigger] rows[j]).name
                    != name by {
                    if j > 0 {
                        assert(rest[j - 1] == rows[j]);
                    }
                }
            }
            if forall|j: int| 0 <= j < rows.len() ==> (#[trigger] rows[j]).name != name {
                assert forall|j: int| 0 <= j < rest.len() implies (#[trigger] rest[j]).name
                    != name by {
                    assert(rest[j] == rows[j + 1]);
                }
            }
        }
    }
}

// ---------- Laws ----------

/// A user that was added is read behind the others, with its uid and the next uid
/// one further; it is in `all` and in the given groups, and no other membership is
/// read than before; and the check of the write passes. A name that a user has
/// already is not added.
pub proof fn added_users_are_read(
    xml: Seq<char>,
    row: Row,
    groups: Seq<Seq<char>>,
    new: Seq<char>,
)
    requires
        row.uid < u32::MAX,
        user_named(events(xml), row.name) is None,
        reads_back_all(xml, add_changes(row, groups), new),
        all_fit(xml, add_changes(row, groups)),
    ensures
        parsed(new) is Ok,
        users(events(new)) == Ok::<Seq<Row>, Failure>(users(events(xml))->Ok_0.push(row)),
        next_uid_of(events(new)) == Ok::<u32, Failure>((row.uid + 1) as u32),
        memberships(events(new)) is Ok,
        forall|m: (u32, Seq<char>)| #[trigger]
            memberships(events(new))->Ok_0.contains(m) <==> memberships(
                events(xml),
            )->Ok_0.contains(m) || (m.0 == row.uid && (groups.contains(m.1) || m.1 == "all"@)),
        check_failure(Expectation::Added(row.name, row.uid), new) is None,
{
    reveal_with_fuel(reads_back_all, 3);
    reveal_with_fuel(fit_all, 3);
    let all = add_changes(row, groups);
    let members = seq![Change::AddGroupMember("all"@, row.uid)] + joined(groups, row.uid);
    let one = all.drop_first();
    let two = one.drop_first();
    assert(all[0] == Change::AppendUser(row));
    assert(one[0] == Change::SetNextUid((row.uid + 1) as u32));
    assert(two =~= members);
    lemma_all_joined(groups, row.uid, "all"@);
    assert forall|i: int| 2 <= i < all.len() implies #[trigger] all[i] is AddGroupMember by {
        assert(all[i] == members[i - 2]);
    }
    lemma_add_fits(xml, all, new);
    lemma_fits(xml, all[0]);
    let first = mutated(xml, all[0])->Ok_0;
    lemma_fits(first, one[0]);
    let second = mutated(first, one[0])->Ok_0;
    assert(memberships(events(second)) == memberships(events(xml)));
    lemma_members(second, members, new, row.uid);
    assert forall|m: (u32, Seq<char>)| #[trigger]
        memberships(events(new))->Ok_0.contains(m) <==> memberships(
            events(xml),
        )->Ok_0.contains(m) || (m.0 == row.uid && (groups.contains(m.1) || m.1 == "all"@)) by {
        lemma_all_joined(groups, row.uid, m.1);
    }
    let before = users(events(xml))->Ok_0;
    let after = before.push(row);
    lemma_no_row(before, row.name);
    assert forall|j: int| 0 <= j < before.len() implies (#[trigger] after[j]).name != row.name by {
        assert(after[j] == before[j]);
    }
    lemma_row_named(after, row.name, before.len() as int);
}

/// A user that was changed is read in its place, with the changes; where groups were
/// given it is in these, and in no others; the memberships of others
/// are as they were; and the check of the write passes. The next uid is as it was,
/// unless a member that was taken out stood in its element.
pub proof fn changed_users_are_read(
    xml: Seq<char>,
    row: Row,
    groups: Option<Seq<Seq<char>>>,
    new: Seq<char>,
    k: int,
)
    requires
        reads_back_all(xml, update_changes(row, groups), new),
        all_fit(xml, update_changes(row, groups)),
        is_user_at(events(xml), row.name, k),
        k < users(events(xml))->Ok_0.len(),
        forall|j: int| 0 <= j < k ==> (#[trigger] users(events(xml))->Ok_0[j]).name != row.name,
    ensures
        parsed(new) is Ok,
        users(events(new)) == Ok::<Seq<Row>, Failure>(users(events(xml))->Ok_0.update(k, row)),
        groups is None || spares_next_uid(xml, row.uid) ==> next_uid_of(events(new))
            == next_uid_of(events(xml)),
        memberships(events(new)) is Ok,
        groups is None ==> memberships(events(new)) == memberships(events(xml)),
        groups matches Some(list) ==> forall|m: (u32, Seq<char>)| #[trigger]
            memberships(events(new))->Ok_0.contains(m) <==> if m.0 == row.uid {
                list.contains(m.1)
            } else {
                memberships(events(xml))->Ok_0.contains(m)
            },
        check_failure(
            Expectation::Updated(row.name, Some(row.descr), Some(row.priv_list)),
            new,
        ) is None,
{
    reveal_with_fuel(reads_back_all, 3);
    reveal_with_fuel(fit_all, 3);
    let all = update_changes(row, groups);
    assert(all[0] == Change::ReplaceUser(row));
    if let Some(list) = groups {
        assert(all[1] == Change::RemoveGroupMembership(row.uid));
        assert forall|i: int| 2 <= i < all.len() implies #[trigger] all[i] is AddGroupMember by {
            assert(all[i] == listed(list, row.uid)[i - 2]);
        }
    }
    lemma_update_fits(xml, all, new);
    lemma_fits(xml, all[0]);
    let first = mutated(xml, all[0])->Ok_0;
    let ts = events(xml);
    assert(named_element(ts, 0, "user"@, row.name) == Some(system_children(ts, "user"@)[k]));
    let before = users(ts)->Ok_0;
    let after = before.update(k, row);
    assert(users(events(first)) == Ok::<Seq<Row>, Failure>(after));
    match groups {
        None => {
            assert(all.drop_first() =~= Seq::empty());
        },
        Some(list) => {
            let members = listed(list, row.uid);
            let one = all.drop_first();
            assert(one[0] == Change::RemoveGroupMembership(row.uid));
            assert(one.drop_first() =~= members);
            lemma_fits(first, one[0]);
            let second = mutated(first, one[0])->Ok_0;
            lemma_members(second, members, new, row.uid);
            assert forall|m: (u32, Seq<char>)| #[trigger]
                memberships(events(new))->Ok_0.contains(m) <==> (if m.0 == row.uid {
                    list.contains(m.1)
                } else {
                    memberships(events(xml))->Ok_0.contains(m)
                }) by {
                lemma_listed(list, row.uid, m.1);
                lemma_without(memberships(ts)->Ok_0, row.uid, m);
            }
        },
    }
    assert forall|j: int| 0 <= j < k implies (#[trigger] after[j]).name != row.name by {
        assert(after[j] == before[j]);
    }
    lemma_row_named(after, row.name, k);
}

/// A user that was deleted is not read any more, nor is any membership of it; the
/// others are as they were; and the check of the write passes. The next uid is as it
/// was, unless a member that was taken out stood in its element.
pub proof fn deleted_users_are_gone(
    xml: Seq<char>,
    name: Seq<char>,
    uid: u32,
    new: Seq<char>,
    k: int,
)
    requires
        ({
            let changes = seq![Change::RemoveUser(name), Change::RemoveGroupMembership(uid)];
            reads_back_all(xml, changes, new) && all_fit(xml, changes)
        }),
        is_user_at(events(xml), name, k),
        k < users(events(xml))->Ok_0.len(),
        forall|j: int|
            0 <= j < users(events(xml))->Ok_0.len() && j != k ==> (#[trigger] users(
                events(xml),
            )->Ok_0[j]).name != name,
    ensures
        parsed(new) is Ok,
        users(events(new)) == Ok::<Seq<Row>, Failure>(users(events(xml))->Ok_0.remove(k)),
        spares_next_uid(xml, uid) ==> next_uid_of(events(new)) == next_uid_of(events(xml)),
        memberships(events(new)) == Ok::<Seq<(u32, Seq<char>)>, Failure>(
            without(memberships(events(xml))->Ok_0, uid),
        ),
        check_failure(Expectation::Deleted(name), new) is None,
{
    reveal_with_fuel(reads_back_all, 3);
    reveal_with_fuel(fit_all, 3);
    let all = seq![Change::RemoveUser(name), Change::RemoveGroupMembership(uid)];
    let one = all.drop_first();
    assert(one[0] == Change::RemoveGroupMembership(uid));
    assert(one.drop_first() =~= Seq::empty());
    lemma_delete_fits(xml, name, uid, new);
    lemma_fits(xml, all[0]);
    let first = mutated(xml, all[0])->Ok_0;
    lemma_fits(first, one[0]);
    let ts = events(xml);
    assert(named_element(ts, 0, "user"@, name) == Some(system_children(ts, "user"@)[k]));
    let before = users(ts)->Ok_0;
    let after = before.remove(k);
    assert forall|j: int| 0 <= j < after.len() implies (#[trigger] after[j]).name != name by {
        if j < k {
            assert(after[j] == before[j]);
        } else {
            assert(after[j] == before[j + 1]);
        }
    }
    lemma_no_row(after, name);
}

/// A user whose password was set is read in its place with the new hash and no
/// other kind of hash, and the check of the write passes.
pub proof fn new_passwords_are_read(xml: Seq<char>, row: Row, new: Seq<char>, k: int)
    requires
        row.bcrypt_hash is Some,
        reads_back_all(xml, seq![Change::ReplaceUser(row)], new),
        all_fit(xml, seq![Change::ReplaceUser(row)]),
        is_user_at(events(xml), row.name, k),
        k < users(events(xml))->Ok_0.len(),
        forall|j: int| 0 <= j < k ==> (#[trigger] users(events(xml))->Ok_0[j]).name != row.name,
    ensures
        parsed(new) is Ok,
        users(events(new)) == Ok::<Seq<Row>, Failure>(users(events(xml))->Ok_0.update(k, row)),
        next_uid_of(events(new)) == next_uid_of(events(xml)),
        memberships(events(new)) == memberships(events(xml)),
        check_failure(Expectation::PasswordSet(row.name), new) is None,
{
    changed_users_are_read(xml, row, None, new, k);
    let before = users(events(xml))->Ok_0;
    let after = before.update(k, row);
    assert forall|j: int| 0 <= j < k implies (#[trigger] after[j]).name != row.name by {
        assert(after[j] == before[j]);
    }
    lemma_row_named(after, row.name, k);
}

/// A user is appended by putting its block in front of `</system>`. It is read
/// behind the others, field by field, and nothing else is read differently.
pub proof fn users_are_inserted(xml: Seq<char>, row: Row)
    requires
        scanned(xml),
        regular(events(xml)),
        users(events(xml)) is Ok,
        writable(row),
    ensures
        ({
            let ls = lexemes(xml)->Ok_0;
            let end = system(events(xml)).1;
            let i = before(xml, ls, end).len() as int;
            let new = xml.take(i) + user_block(row, user_indent(xml, ls)) + xml.skip(i);
            &&& events(xml)[end] is End
            &&& mutated(xml, Change::AppendUser(row)) == Ok::<Seq<char>, Failure>(new)
            &&& parsed(new) is Ok
            &&& users(events(new)) == Ok::<Seq<Row>, Failure>(users(events(xml))->Ok_0.push(row))
            &&& next_uid_of(events(new)) == next_uid_of(events(xml))
            &&& memberships(events(new)) == memberships(events(xml))
        }),
{
    reveal(scanned);
    let ls = lexemes(xml)->Ok_0;
    let end = system(events(xml)).1;
    lemma_system(events(xml));
    append_user_round_trip(xml, ls, row);
    lemma_before(xml, ls, end, end);
    let at = before(xml, ls, end);
    assert(xml.take(at.len() as int) =~= at);
}

/// A member is added by putting its line in front of the `</group>` of the group
/// of that name; without such a group nothing is added. One membership more is
/// read, and nothing else is read differently.
pub proof fn members_are_inserted(xml: Seq<char>, group: Seq<char>, uid: u32)
    requires
        scanned(xml),
    ensures
        named_element(events(xml), 0, "group"@, group) is None ==> mutated(
            xml,
            Change::AddGroupMember(group, uid),
        ) == Err::<Seq<char>, Failure>(Failure::GroupNotFound(group)),
        forall|k: int| #[trigger]
            is_group_at(events(xml), group, k) ==> ({
                let ls = lexemes(xml)->Ok_0;
                let at = before(xml, ls, system_children(events(xml), "group"@)[k].1);
                let i = at.len() as int;
                let new = xml.take(i) + member_line(uid, indent_of(at)) + xml.skip(i);
                &&& mutated(xml, Change::AddGroupMember(group, uid)) == Ok::<Seq<char>, Failure>(
                    new,
                )
                &&& parsed(new) is Ok
                &&& users(events(new)) == users(events(xml))
                &&& next_uid_of(events(new)) == next_uid_of(events(xml))
                &&& memberships(events(new)) matches Ok(list) && exists|n: int|
                    0 <= n <= memberships(events(xml))->Ok_0.len() && list == #[trigger] memberships(
                        events(xml),
                    )->Ok_0.insert(n, (uid, group))
            }),
{
    reveal(scanned);
    let ls = lexemes(xml)->Ok_0;
    let ts = events(xml);
    assert forall|k: int| #[trigger] is_group_at(ts, group, k) implies ({
        let at = before(xml, ls, system_children(ts, "group"@)[k].1);
        let i = at.len() as int;
        let new = xml.take(i) + member_line(uid, indent_of(at)) + xml.skip(i);
        &&& mutated(xml, Change::AddGroupMember(group, uid)) == Ok::<Seq<char>, Failure>(new)
        &&& parsed(new) is Ok
        &&& users(events(new)) == users(ts)
        &&& next_uid_of(events(new)) == next_uid_of(ts)
        &&& memberships(events(new)) matches Ok(list) && exists|n: int|
            0 <= n <= memberships(ts)->Ok_0.len() && list == #[trigger] memberships(
                ts,
            )->Ok_0.insert(n, (uid, group))
    }) by {
        let end = system_children(ts, "group"@)[k].1;
        lemma_child_place(ts, "group"@, k);
        add_group_member_round_trip(xml, ls, group, uid, k);
        lemma_before(xml, ls, end, end);
        let at = before(xml, ls, end);
        assert(xml.take(at.len() as int) =~= at);
    }
}

} // verus!
