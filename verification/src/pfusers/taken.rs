//! What is read from a document after a `<member>` has been taken out of it,
//! wherever that stands.

use crate::edit::{
    balanced, edited, lemma_balanced, lemma_children, lemma_children_of, lemma_children_replaced,
    lemma_clear_or_around, lemma_root_around, moved, moved_ranges, shifted_ranges,
};
use crate::pfusers::document::{next_uid_of, system_range, user_at, users};
use crate::pfusers::errors::Failure;
use crate::pfusers::round_trip::{
    clear_of, lemma_child_place, lemma_kept_element, lemma_system_depth, lemma_users_agree,
    moved_range, system, system_children,
};
use crate::tree::{
    child_ranges, child_text, child_texts, close_of, depth_at, element_text, lemma_close_depth,
    root_range,
};
use crate::xml::Token;
use vstd::prelude::*;

verus! {

/// At `r` is a `<member>` inside three other elements.
pub open spec fn stands(ts: Seq<Token>, r: (int, int)) -> bool {
    &&& 0 <= r.0 < r.1 < ts.len()
    &&& ts[r.0] == Token::Start("member"@)
    &&& depth_at(ts, r.0) == 3
    &&& close_of(ts, r.0, ts.len() as int) == Some(r.1)
}

/// The edit takes out the member at `r`, and leaves text in its place.
pub open spec fn takes_out(
    ts: Seq<Token>,
    p: int,
    q: int,
    w: Seq<Token>,
    r: (int, int),
) -> bool {
    &&& stands(ts, r)
    &&& 0 < p <= r.0
    &&& r.1 < q <= ts.len()
    &&& depth_at(ts, p) == 3
    &&& balanced(ts.subrange(p, q))
    &&& balanced(w)
    &&& forall|m: int| 0 <= m < w.len() ==> #[trigger] w[m] is Text
    &&& forall|name: Seq<char>|
        #![trigger child_ranges(w, 0, w.len() as int, name)]
        child_ranges(w, 0, w.len() as int, name).len() == 0
    &&& forall|name: Seq<char>|
        #![trigger child_ranges(ts, p, q, name)]
        child_ranges(ts, p, q, name) == if name == "member"@ {
            seq![r]
        } else {
            Seq::empty()
        }
}

/// The children `name` of `<system>` are where they were, moved by the edit.
pub proof fn lemma_taken_children(
    ts: Seq<Token>,
    p: int,
    q: int,
    w: Seq<Token>,
    r: (int, int),
    name: Seq<char>,
)
    requires
        takes_out(ts, p, q, w, r),
        system_range(ts) is Ok,
    ensures
        ({
            let us = edited(ts, p, q, w);
            let b = w.len() - (q - p);
            &&& system_range(us) == Ok::<(int, int), Failure>(moved_range(system(ts), p, b))
            &&& system_children(us, name) == moved_ranges(system_children(ts, name), p, b)
        }),
{
    let us = edited(ts, p, q, w);
    let b = w.len() - (q - p);
    lemma_system_depth(ts);
    let (x, y) = root_range(ts, 0, "pfsense"@)->0;
    let (s, e) = system(ts);
    lemma_root_around(ts, p, q, w, 0, "pfsense"@);
    lemma_clear_or_around(ts, p, q, x, y, ts.len() as int);
    assert(depth_at(ts, x + 1) == 1);
    lemma_children_of(ts, p, q, w, x, y, "system"@);
    lemma_clear_or_around(ts, p, q, s, e, y);
    assert(depth_at(ts, s + 1) <= 2);
    lemma_children_of(ts, p, q, w, s, e, name);
}

/// An element inside two others that is around a place among its children.
pub proof fn lemma_around(ts: Seq<Token>, x: int, y: int, end: int, p: int)
    requires
        0 <= x < p <= y < end <= ts.len(),
        ts[x] is Start,
        depth_at(ts, x) == 2,
        close_of(ts, x, end) == Some(y),
        depth_at(ts, p) == 3,
    ensures
        balanced(ts.subrange(x + 1, p)),
{
    lemma_close_depth(ts, x + 1, end, 1);
    assert(depth_at(ts, x + 1) == 3);
    lemma_balanced(ts, x + 1, p);
}

/// The edit is outside of a child of `<system>`, or between the children of that.
pub proof fn lemma_taken_child(
    ts: Seq<Token>,
    p: int,
    q: int,
    w: Seq<Token>,
    r: (int, int),
    name: Seq<char>,
    k: int,
)
    requires
        takes_out(ts, p, q, w, r),
        system_range(ts) is Ok,
        0 <= k < system_children(ts, name).len(),
    ensures
        ({
            let c = system_children(ts, name)[k];
            &&& 0 <= c.0 <= c.1 < ts.len()
            &&& clear_of(c, p, q) || (c.0 < p && q <= c.1 && balanced(ts.subrange(c.0 + 1, p)))
        }),
{
    let (s, e) = system(ts);
    let (x, y) = system_children(ts, name)[k];
    lemma_system_depth(ts);
    lemma_child_place(ts, name, k);
    lemma_balanced(ts, s + 1, x);
    assert(depth_at(ts, s + 1) == 2);
    lemma_clear_or_around(ts, p, q, x, y, e);
    if x < p && q <= y {
        lemma_around(ts, x, y, e, p);
    }
}

/// Children of another name than `<member>` are kept.
proof fn lemma_taken_text(
    ts: Seq<Token>,
    p: int,
    q: int,
    w: Seq<Token>,
    r: (int, int),
    c: (int, int),
    name: Seq<char>,
)
    requires
        takes_out(ts, p, q, w, r),
        0 <= c.0 < p,
        q <= c.1 < ts.len(),
        balanced(ts.subrange(c.0 + 1, p)),
        name != "member"@,
    ensures
        ({
            let us = edited(ts, p, q, w);
            let d = (c.0, c.1 + w.len() - (q - p));
            &&& child_text(us, d, name) == child_text(ts, c, name)
            &&& child_texts(us, d, name) == child_texts(ts, c, name)
            &&& child_ranges(us, d.0 + 1, d.1, name).len() == child_ranges(
                ts,
                c.0 + 1,
                c.1,
                name,
            ).len()
        }),
{
    let us = edited(ts, p, q, w);
    let b = w.len() - (q - p);
    let d = (c.0, c.1 + b);
    lemma_children_replaced(ts, p, q, w, c.0 + 1, c.1, name);
    let front = child_ranges(ts, c.0 + 1, p, name);
    let back = child_ranges(ts, q, c.1, name);
    let rs = child_ranges(ts, c.0 + 1, c.1, name);
    let ss = child_ranges(us, d.0 + 1, d.1, name);
    assert(child_ranges(w, 0, w.len() as int, name) =~= Seq::<(int, int)>::empty());
    assert(rs =~= front + back);
    assert(ss =~= front + shifted_ranges(back, b));
    assert forall|i: int| 0 <= i < rs.len() implies element_text(us, #[trigger] ss[i])
        == element_text(ts, rs[i]) by {
        if i < front.len() {
            assert(rs[i] == front[i] && ss[i] == front[i]);
            lemma_children(ts, c.0 + 1, p, name, i);
        } else {
            assert(rs[i] == back[i - front.len()]);
            lemma_children(ts, q, c.1, name, i - front.len());
        }
        lemma_kept_element(ts, p, q, w, rs[i], name);
        assert(ss[i] == moved_range(rs[i], p, b));
    }
    assert(child_texts(us, d, name) =~= child_texts(ts, c, name));
    if rs.len() > 0 {
        assert(element_text(us, ss[0]) == element_text(ts, rs[0]));
    }
}

/// A child of `<system>` keeps its children of another name than `<member>`.
pub proof fn lemma_taken_names(
    ts: Seq<Token>,
    p: int,
    q: int,
    w: Seq<Token>,
    r: (int, int),
    tag: Seq<char>,
    k: int,
    name: Seq<char>,
)
    requires
        takes_out(ts, p, q, w, r),
        system_range(ts) is Ok,
        0 <= k < system_children(ts, tag).len(),
        name != "member"@,
    ensures
        ({
            let us = edited(ts, p, q, w);
            let c = system_children(ts, tag)[k];
            let d = moved_range(c, p, w.len() - (q - p));
            &&& child_text(us, d, name) == child_text(ts, c, name)
            &&& child_texts(us, d, name) == child_texts(ts, c, name)
            &&& child_ranges(us, d.0 + 1, d.1, name).len() == child_ranges(
                ts,
                c.0 + 1,
                c.1,
                name,
            ).len()
        }),
{
    let c = system_children(ts, tag)[k];
    lemma_taken_child(ts, p, q, w, r, tag, k);
    if clear_of(c, p, q) {
        lemma_kept_element(ts, p, q, w, c, name);
    } else {
        lemma_taken_text(ts, p, q, w, r, c, name);
    }
}

/// No part of a user is a member.
proof fn lemma_user_names()
    ensures
        "name"@ != "member"@,
        "uid"@ != "member"@,
        "descr"@ != "member"@,
        "scope"@ != "member"@,
        "expires"@ != "member"@,
        "disabled"@ != "member"@,
        "priv"@ != "member"@,
        "authorizedkeys"@ != "member"@,
        "bcrypt-hash"@ != "member"@,
        "sha512-hash"@ != "member"@,
        "md5-hash"@ != "member"@,
{
    reveal_strlit("member");
    reveal_strlit("name");
    reveal_strlit("uid");
    reveal_strlit("descr");
    reveal_strlit("scope");
    reveal_strlit("expires");
    reveal_strlit("disabled");
    reveal_strlit("priv");
    reveal_strlit("authorizedkeys");
    reveal_strlit("bcrypt-hash");
    reveal_strlit("sha512-hash");
    reveal_strlit("md5-hash");
    assert("member"@.len() == 6);
}

/// Users are read as before.
pub proof fn lemma_taken_users(ts: Seq<Token>, p: int, q: int, w: Seq<Token>, r: (int, int))
    requires
        takes_out(ts, p, q, w, r),
        system_range(ts) is Ok,
    ensures
        users(edited(ts, p, q, w)) == users(ts),
{
    let us = edited(ts, p, q, w);
    let b = w.len() - (q - p);
    let rs = system_children(ts, "user"@);
    lemma_taken_children(ts, p, q, w, r, "user"@);
    let ss = moved_ranges(rs, p, b);
    assert forall|k: int| 0 <= k < rs.len() implies user_at(us, ss[k]) == user_at(
        ts,
        #[trigger] rs[k],
    ) by {
        assert(ss[k] == moved_range(rs[k], p, b));
        lemma_taken_user(ts, p, q, w, r, k);
    }
    lemma_users_agree(ts, us, rs, ss);
}

proof fn lemma_taken_user(ts: Seq<Token>, p: int, q: int, w: Seq<Token>, r: (int, int), k: int)
    requires
        takes_out(ts, p, q, w, r),
        system_range(ts) is Ok,
        0 <= k < system_children(ts, "user"@).len(),
    ensures
        ({
            let c = system_children(ts, "user"@)[k];
            user_at(edited(ts, p, q, w), moved_range(c, p, w.len() - (q - p))) == user_at(ts, c)
        }),
{
    reveal(user_at);
    lemma_user_names();
    lemma_taken_names(ts, p, q, w, r, "user"@, k, "name"@);
    lemma_taken_names(ts, p, q, w, r, "user"@, k, "uid"@);
    lemma_taken_names(ts, p, q, w, r, "user"@, k, "descr"@);
    lemma_taken_names(ts, p, q, w, r, "user"@, k, "scope"@);
    lemma_taken_names(ts, p, q, w, r, "user"@, k, "expires"@);
    lemma_taken_names(ts, p, q, w, r, "user"@, k, "disabled"@);
    lemma_taken_names(ts, p, q, w, r, "user"@, k, "priv"@);
    lemma_taken_names(ts, p, q, w, r, "user"@, k, "authorizedkeys"@);
    lemma_taken_names(ts, p, q, w, r, "user"@, k, "bcrypt-hash"@);
    lemma_taken_names(ts, p, q, w, r, "user"@, k, "sha512-hash"@);
    lemma_taken_names(ts, p, q, w, r, "user"@, k, "md5-hash"@);
}

/// The element at `r` is inside the one at `c`.
pub open spec fn within(r: (int, int), c: (int, int)) -> bool {
    c.0 < r.0 && r.1 < c.1
}

/// The `<nextuid>` that is read is not around the element at `r`.
pub open spec fn beside_next_uid(ts: Seq<Token>, r: (int, int)) -> bool {
    system_children(ts, "nextuid"@).len() > 0 ==> !within(r, system_children(ts, "nextuid"@)[0])
}

/// A next uid that is not around the member is read as before.
pub proof fn lemma_taken_next_uid(ts: Seq<Token>, p: int, q: int, w: Seq<Token>, r: (int, int))
    requires
        takes_out(ts, p, q, w, r),
        system_range(ts) is Ok,
        beside_next_uid(ts, r),
    ensures
        next_uid_of(edited(ts, p, q, w)) == next_uid_of(ts),
{
    let rs = system_children(ts, "nextuid"@);
    lemma_taken_children(ts, p, q, w, r, "nextuid"@);
    if rs.len() > 0 {
        lemma_taken_child(ts, p, q, w, r, "nextuid"@, 0);
        lemma_kept_element(ts, p, q, w, rs[0], "nextuid"@);
    }
}

/// A member in front of the edit is in the next uid or not, as before.
pub proof fn lemma_taken_beside(
    ts: Seq<Token>,
    p: int,
    q: int,
    w: Seq<Token>,
    r: (int, int),
    o: (int, int),
)
    requires
        takes_out(ts, p, q, w, r),
        system_range(ts) is Ok,
        beside_next_uid(ts, r),
        beside_next_uid(ts, o),
        o.0 <= o.1 < p,
    ensures
        beside_next_uid(edited(ts, p, q, w), o),
{
    let rs = system_children(ts, "nextuid"@);
    lemma_taken_children(ts, p, q, w, r, "nextuid"@);
    if rs.len() > 0 {
        lemma_taken_child(ts, p, q, w, r, "nextuid"@, 0);
    }
}

/// A group that is around the edit has the member among its members.
pub proof fn lemma_taken_member(
    ts: Seq<Token>,
    p: int,
    q: int,
    w: Seq<Token>,
    r: (int, int),
    k: int,
)
    requires
        takes_out(ts, p, q, w, r),
        system_range(ts) is Ok,
        0 <= k < system_children(ts, "group"@).len(),
        !clear_of(system_children(ts, "group"@)[k], p, q),
    ensures
        ({
            let (x, y) = system_children(ts, "group"@)[k];
            let m = child_ranges(ts, x + 1, p, "member"@).len() as int;
            &&& 0 <= m < child_ranges(ts, x + 1, y, "member"@).len()
            &&& child_ranges(ts, x + 1, y, "member"@)[m] == r
        }),
{
    let (x, y) = system_children(ts, "group"@)[k];
    lemma_taken_child(ts, p, q, w, r, "group"@, k);
    lemma_children_replaced(ts, p, q, w, x + 1, y, "member"@);
}

/// A member in front of the edit stands where it was.
pub proof fn lemma_taken_stands(
    ts: Seq<Token>,
    p: int,
    q: int,
    w: Seq<Token>,
    r: (int, int),
    o: (int, int),
)
    requires
        takes_out(ts, p, q, w, r),
        stands(ts, o),
        o.1 < p,
    ensures
        stands(edited(ts, p, q, w), o),
{
    crate::edit::lemma_close_moved(ts, p, q, w, o.0);
    assert(moved(o.0, p, w.len() - (q - p)) == o.0);
}

} // verus!
