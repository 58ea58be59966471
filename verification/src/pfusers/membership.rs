//! What is read from a document after the memberships of a user have been taken
//! out of it.

use crate::edit::{
    balanced, edited, lemma_balanced, lemma_children, lemma_children_replaced, moved_ranges,
    shifted_ranges,
};
use crate::numbers::{decimal, decimal_is_digits, decimal_round_trip, is_digit, parsed_number};
use crate::pfusers::document::{
    memberships, memberships_at, memberships_in, next_uid_of, or_empty, parsed, system_range, users,
};
use crate::pfusers::errors::Failure;
use crate::pfusers::mutation::{
    first_named, lemma_before, member_ranges, mutated, named_element, positions, stripped,
    tokens_of, trim_blank_end, Change,
};
use crate::pfusers::pieces::writable;
use crate::pfusers::round_trip::{
    add_group_member_round_trip, ahead_of_text, append_user_round_trip, children_kept, clear_of,
    cut, inside, lemma_child_place, lemma_cut, lemma_groups_kept, lemma_inside, lemma_kept_element,
    lemma_system, moved_range, past_text, regular, remove_user_round_trip, replace_user_round_trip,
    replaced, set_next_uid_round_trip, system, system_children,
};
use crate::pfusers::rows::Row;
use crate::pfusers::taken::{
    beside_next_uid, lemma_taken_beside, lemma_taken_child, lemma_taken_children,
    lemma_taken_member, lemma_taken_next_uid, lemma_taken_stands, lemma_taken_users, stands,
    takes_out,
};
use crate::text::{is_space, trim_end_by, trim_start_by, trimmed};
use crate::tree::{
    child_ranges, child_text, child_texts, close_of, depth_at, element_text, lemma_depth_bound,
    text_between,
};
use crate::xml::{
    before, bom, lemma_source_first, lexemes, open_at, source, well_placed, well_read, well_scanned,
    Lexeme, Token,
};
use vstd::prelude::*;

verus! {

/// The memberships that are not of `uid`.
pub open spec fn without(list: Seq<(u32, Seq<char>)>, uid: u32) -> Seq<(u32, Seq<char>)>
    decreases list.len(),
{
    if list.len() == 0 {
        Seq::empty()
    } else if list.last().0 == uid {
        without(list.drop_last(), uid)
    } else {
        without(list.drop_last(), uid).push(list.last())
    }
}

proof fn lemma_without_concat(a: Seq<(u32, Seq<char>)>, b: Seq<(u32, Seq<char>)>, uid: u32)
    ensures
        without(a + b, uid) == without(a, uid) + without(b, uid),
    decreases b.len(),
{
    if b.len() == 0 {
        assert(a + b =~= a);
        assert(without(a, uid) + without(b, uid) =~= without(a, uid));
    } else {
        assert((a + b).drop_last() =~= a + b.drop_last());
        lemma_without_concat(a, b.drop_last(), uid);
        assert(without(a + b, uid) =~= without(a, uid) + without(b, uid));
    }
}

proof fn lemma_without_all(list: Seq<(u32, Seq<char>)>, uid: u32)
    requires
        forall|i: int| 0 <= i < list.len() ==> (#[trigger] list[i]).0 != uid,
    ensures
        without(list, uid) == list,
    decreases list.len(),
{
    if list.len() > 0 {
        assert forall|i: int| 0 <= i < list.drop_last().len() implies (
        #[trigger] list.drop_last()[i]).0 != uid by {
            assert(list.drop_last()[i] == list[i]);
        }
        lemma_without_all(list.drop_last(), uid);
        assert(list.last() == list[list.len() - 1]);
        assert(list.drop_last().push(list.last()) =~= list);
    }
}

/// The text is no number, or the number `uid`.
pub open spec fn at_most(text: Seq<char>, uid: u32) -> bool {
    parsed_number(text, u32::MAX as nat) matches Some(n) ==> n == uid
}

/// A member that makes no membership of another uid can be left out.
proof fn lemma_member_left_out(group: Seq<char>, members: Seq<Seq<char>>, m: int, uid: u32)
    requires
        0 <= m < members.len(),
        at_most(members[m], uid),
    ensures
        without(memberships_in(group, members.remove(m)), uid) == without(
            memberships_in(group, members),
            uid,
        ),
    decreases members.len(),
{
    let rest = members.drop_last();
    let list = memberships_in(group, members);
    if m == members.len() - 1 {
        assert(members.remove(m) =~= rest);
        if parsed_number(members.last(), u32::MAX as nat) is Some {
            assert(list.drop_last() =~= memberships_in(group, rest));
        }
    } else {
        lemma_member_left_out(group, rest, m, uid);
        let cut_list = members.remove(m);
        assert(cut_list.drop_last() =~= rest.remove(m));
        assert(cut_list.last() == members.last());
        if let Some(n) = parsed_number(members.last(), u32::MAX as nat) {
            let a = memberships_in(group, rest);
            let b = memberships_in(group, rest.remove(m));
            assert(a.push((n as u32, group)).drop_last() =~= a);
            assert(b.push((n as u32, group)).drop_last() =~= b);
        }
    }
}

/// The groups at `rs` and at `ss` are the same but for a member of group `g` that
/// is missing in the second list.
pub open spec fn same_groups_but(
    ts: Seq<Token>,
    us: Seq<Token>,
    rs: Seq<(int, int)>,
    ss: Seq<(int, int)>,
    g: int,
    m: int,
) -> bool {
    &&& rs.len() == ss.len()
    &&& 0 <= m < child_texts(ts, rs[g], "member"@).len()
    &&& forall|i: int|
        0 <= i < rs.len() ==> {
            &&& child_text(us, ss[i], "name"@) == child_text(ts, #[trigger] rs[i], "name"@)
            &&& child_texts(us, ss[i], "member"@) == if i == g {
                child_texts(ts, rs[i], "member"@).remove(m)
            } else {
                child_texts(ts, rs[i], "member"@)
            }
        }
}

proof fn lemma_groups_but(
    ts: Seq<Token>,
    us: Seq<Token>,
    rs: Seq<(int, int)>,
    ss: Seq<(int, int)>,
    g: int,
    m: int,
    uid: u32,
    n: int,
)
    requires
        same_groups_but(ts, us, rs, ss, g, m),
        0 <= g < rs.len(),
        at_most(child_texts(ts, rs[g], "member"@)[m], uid),
        0 <= n <= rs.len(),
    ensures
        without(memberships_at(us, ss.take(n)), uid) == without(
            memberships_at(ts, rs.take(n)),
            uid,
        ),
    decreases n,
{
    if n > 0 {
        lemma_groups_but(ts, us, rs, ss, g, m, uid, n - 1);
        assert(rs.take(n).drop_last() =~= rs.take(n - 1));
        assert(ss.take(n).drop_last() =~= ss.take(n - 1));
        let name = or_empty(child_text(ts, rs[n - 1], "name"@));
        let members = child_texts(ts, rs[n - 1], "member"@);
        lemma_without_concat(
            memberships_at(ts, rs.take(n - 1)),
            memberships_in(name, members),
            uid,
        );
        lemma_without_concat(
            memberships_at(us, ss.take(n - 1)),
            memberships_in(name, child_texts(us, ss[n - 1], "member"@)),
            uid,
        );
        if n - 1 == g {
            lemma_member_left_out(name, members, m, uid);
        }
    }
}

// ---------- Members of groups ----------

/// The members of group `g` of `<system>`.
pub open spec fn members_of(ts: Seq<Token>, g: int) -> Seq<(int, int)> {
    child_ranges(
        ts,
        system_children(ts, "group"@)[g].0 + 1,
        system_children(ts, "group"@)[g].1,
        "member"@,
    )
}

/// `r` is member `m` of group `g` of `<system>`.
pub open spec fn is_member(ts: Seq<Token>, r: (int, int), g: int, m: int) -> bool {
    &&& 0 <= g < system_children(ts, "group"@).len()
    &&& 0 <= m < members_of(ts, g).len()
    &&& members_of(ts, g)[m] == r
}

/// `r` is a member of a group of `<system>`.
pub open spec fn in_group(ts: Seq<Token>, r: (int, int)) -> bool {
    exists|g: int, m: int| is_member(ts, r, g, m)
}

/// The element at `r` holds one text, which is the uid and white space around
/// it.
pub open spec fn holds_uid(ls: Seq<Lexeme>, r: (int, int), uid: u32) -> bool {
    &&& 0 <= r.0 < ls.len()
    &&& r.1 == r.0 + 2
    &&& r.1 < ls.len()
    &&& ls[r.0 + 1].token is Text
    &&& trimmed(ls[r.0 + 1].raw) == decimal(uid as nat)
}

/// Ranges in ascending order.
pub open spec fn ascending(rs: Seq<(int, int)>) -> bool {
    forall|a: int, b: int| 0 <= a < b < rs.len() ==> (#[trigger] rs[a]).1 < (#[trigger] rs[b]).0
}

/// Every membership of `uid` is made by one of the members at `rs`.
pub open spec fn covers(ts: Seq<Token>, rs: Seq<(int, int)>, uid: u32) -> bool {
    forall|r: (int, int), g: int, m: int| #[trigger]
        is_member(ts, r, g, m) && is_uid(element_text(ts, r), uid) ==> rs.contains(r)
}

/// The text stands for `uid`.
pub open spec fn is_uid(text: Seq<char>, uid: u32) -> bool {
    parsed_number(text, u32::MAX as nat) == Some(uid as nat)
}

/// The members at `rs` hold the uid.
pub open spec fn removable(ls: Seq<Lexeme>, rs: Seq<(int, int)>, uid: u32) -> bool {
    &&& ascending(rs)
    &&& forall|k: int|
        0 <= k < rs.len() ==> stands(tokens_of(ls), #[trigger] rs[k]) && holds_uid(ls, rs[k], uid)
}

/// None of the members at `rs` is in the `<nextuid>` that is read.
pub open spec fn all_beside(ts: Seq<Token>, rs: Seq<(int, int)>) -> bool {
    forall|k: int| 0 <= k < rs.len() ==> beside_next_uid(ts, #[trigger] rs[k])
}

/// White space at an end makes a text no number.
proof fn lemma_spaced(t: Seq<char>, uid: u32)
    requires
        trimmed(t) == decimal(uid as nat),
    ensures
        at_most(t, uid),
        !t.contains('&'),
{
    let p = |c: char| is_space(c);
    let number = decimal(uid as nat);
    decimal_is_digits(uid as nat);
    decimal_round_trip(uid as nat, u32::MAX as nat);
    lemma_trim_parts(t);
    let start = trim_start_by(t, p);
    assert forall|i: int| 0 <= i < t.len() implies t[i] != '&' by {
        if is_space(t[i]) {
        } else {
            let lead = t.len() - start.len();
            assert(i >= lead);
            assert(start[i - lead] == t[i]);
            assert(i - lead < number.len());
            assert(number[i - lead] == t[i]);
            assert(is_digit(number[i - lead]));
        }
    }
    if t != number {
        // A character at one of the ends is white space.
        let lead = t.len() - start.len();
        let bad = if lead > 0 {
            0
        } else {
            t.len() - 1
        };
        assert(t.len() > number.len()) by {
            if t.len() == number.len() {
                assert(t =~= number);
            }
        }
        assert(is_space(t[bad]));
        let digits = if t[0] == '+' {
            t.skip(1)
        } else {
            t
        };
        if t[0] == '+' {
            assert(bad > 0);
            assert(digits[bad - 1] == t[bad]);
            assert(!is_digit(digits[bad - 1]));
        } else {
            assert(!is_digit(digits[bad]));
        }
    }
}

/// Trimming takes white space off both ends and nothing else.
proof fn lemma_trim_parts(t: Seq<char>)
    ensures
        ({
            let p = |c: char| is_space(c);
            let start = trim_start_by(t, p);
            let lead = t.len() - start.len();
            let out = trimmed(t);
            &&& 0 <= lead
            &&& start == t.skip(lead)
            &&& forall|i: int| 0 <= i < lead ==> is_space(#[trigger] t[i])
            &&& out.is_prefix_of(start)
            &&& forall|i: int| lead + out.len() <= i < t.len() ==> is_space(#[trigger] t[i])
        }),
{
    let p = |c: char| is_space(c);
    lemma_trim_start(t);
    let start = trim_start_by(t, p);
    lemma_trim_end(start);
    let lead = t.len() - start.len();
    let out = trimmed(t);
    assert forall|i: int| lead + out.len() <= i < t.len() implies is_space(#[trigger] t[i]) by {
        assert(start[i - lead] == t[i]);
    }
}

proof fn lemma_trim_start(t: Seq<char>)
    ensures
        ({
            let p = |c: char| is_space(c);
            let start = trim_start_by(t, p);
            let lead = t.len() - start.len();
            &&& 0 <= lead
            &&& start == t.skip(lead)
            &&& forall|i: int| 0 <= i < lead ==> is_space(#[trigger] t[i])
        }),
    decreases t.len(),
{
    let p = |c: char| is_space(c);
    if t.len() > 0 && p(t[0]) {
        lemma_trim_start(t.drop_first());
        let start = trim_start_by(t.drop_first(), p);
        let lead = t.len() - start.len();
        assert(t.drop_first().skip(lead - 1) =~= t.skip(lead));
        assert forall|i: int| 0 <= i < lead implies is_space(#[trigger] t[i]) by {
            if i > 0 {
                assert(t.drop_first()[i - 1] == t[i]);
            }
        }
    } else {
        assert(t.skip(0) =~= t);
    }
}

proof fn lemma_trim_end(t: Seq<char>)
    ensures
        ({
            let p = |c: char| is_space(c);
            let out = trim_end_by(t, p);
            &&& out.is_prefix_of(t)
            &&& forall|i: int| out.len() <= i < t.len() ==> is_space(#[trigger] t[i])
        }),
    decreases t.len(),
{
    let p = |c: char| is_space(c);
    if t.len() > 0 && p(t.last()) {
        lemma_trim_end(t.drop_last());
        let out = trim_end_by(t.drop_last(), p);
        assert forall|i: int| out.len() <= i < t.len() implies is_space(#[trigger] t[i]) by {
            if i < t.len() - 1 {
                assert(t.drop_last()[i] == t[i]);
            }
        }
    }
}

// ---------- Taking out one member ----------

/// What a cut changes in the group it is made in.
proof fn lemma_group_cut(
    ts: Seq<Token>,
    p: int,
    q: int,
    w: Seq<Token>,
    gx: int,
    gy: int,
    x: int,
    y: int,
)
    requires
        0 <= gx < p <= x < y < q <= gy < ts.len(),
        ts[x] == Token::Start("member"@),
        balanced(ts.subrange(gx + 1, p)),
        balanced(ts.subrange(p, q)),
        balanced(w),
        forall|name: Seq<char>|
            #![trigger child_ranges(w, 0, w.len() as int, name)]
            child_ranges(w, 0, w.len() as int, name).len() == 0,
        forall|name: Seq<char>|
            #![trigger child_ranges(ts, p, q, name)]
            child_ranges(ts, p, q, name) == if ts[x] == Token::Start(name) {
                seq![(x, y)]
            } else {
                Seq::empty()
            },
    ensures
        ({
            let us = edited(ts, p, q, w);
            let b = w.len() - (q - p);
            let a = child_ranges(ts, gx + 1, p, "member"@);
            let c = child_ranges(ts, q, gy, "member"@);
            &&& child_ranges(ts, gx + 1, gy, "member"@) == a + seq![(x, y)] + c
            &&& child_ranges(us, gx + 1, gy + b, "member"@) == a + shifted_ranges(c, b)
            &&& forall|i: int| 0 <= i < a.len() ==> 0 <= (#[trigger] a[i]).0 <= a[i].1 < p
            &&& forall|i: int| 0 <= i < c.len() ==> q <= (#[trigger] c[i]).0 <= c[i].1 < gy
            &&& child_text(us, (gx, gy + b), "name"@) == child_text(ts, (gx, gy), "name"@)
            &&& child_texts(us, (gx, gy + b), "member"@) == child_texts(
                ts,
                (gx, gy),
                "member"@,
            ).remove(a.len() as int)
        }),
{
    let us = edited(ts, p, q, w);
    let b = w.len() - (q - p);
    lemma_children_replaced(ts, p, q, w, gx + 1, gy, "member"@);
    lemma_children_replaced(ts, p, q, w, gx + 1, gy, "name"@);
    reveal_strlit("name");
    reveal_strlit("member");
    assert("name"@ != "member"@) by {
        assert("name"@.len() == 4 && "member"@.len() == 6);
    }
    let a = child_ranges(ts, gx + 1, p, "member"@);
    let c = child_ranges(ts, q, gy, "member"@);
    let an = child_ranges(ts, gx + 1, p, "name"@);
    let cn = child_ranges(ts, q, gy, "name"@);
    assert(child_ranges(w, 0, w.len() as int, "member"@) =~= Seq::<(int, int)>::empty());
    assert(child_ranges(w, 0, w.len() as int, "name"@) =~= Seq::<(int, int)>::empty());
    assert(child_ranges(us, gx + 1, gy + b, "member"@) =~= a + shifted_ranges(c, b));
    assert(child_ranges(ts, gx + 1, gy, "name"@) =~= an + cn);
    assert(child_ranges(us, gx + 1, gy + b, "name"@) =~= an + shifted_ranges(cn, b));
    assert forall|i: int| 0 <= i < a.len() implies 0 <= (#[trigger] a[i]).0 <= a[i].1 < p
        && element_text(us, a[i]) == element_text(ts, a[i]) by {
        lemma_children(ts, gx + 1, p, "member"@, i);
        lemma_kept_element(ts, p, q, w, a[i], "name"@);
    }
    assert forall|i: int| 0 <= i < c.len() implies q <= (#[trigger] c[i]).0 <= c[i].1 < gy
        && element_text(us, shifted_ranges(c, b)[i]) == element_text(ts, c[i]) by {
        lemma_children(ts, q, gy, "member"@, i);
        lemma_kept_element(ts, p, q, w, c[i], "name"@);
    }
    if an.len() > 0 {
        lemma_children(ts, gx + 1, p, "name"@, 0);
        lemma_kept_element(ts, p, q, w, an[0], "name"@);
    } else if cn.len() > 0 {
        lemma_children(ts, q, gy, "name"@, 0);
        lemma_kept_element(ts, p, q, w, cn[0], "name"@);
    }
    assert(child_texts(us, (gx, gy + b), "member"@) =~= child_texts(
        ts,
        (gx, gy),
        "member"@,
    ).remove(a.len() as int));
}

/// The text of a member that holds the uid.
proof fn lemma_member_text(ls: Seq<Lexeme>, r: (int, int), uid: u32)
    requires
        well_scanned(ls),
        holds_uid(ls, r, uid),
    ensures
        at_most(element_text(tokens_of(ls), r), uid),
{
    let ts = tokens_of(ls);
    let t = ls[r.0 + 1].raw;
    lemma_spaced(t, uid);
    crate::pfusers::round_trip::lemma_plain_text(t);
    assert(ts[r.0 + 1] == Token::Text(t)) by {
        reveal(well_placed);
        assert(well_read(ls[r.0 + 1], open_at(ls, r.0 + 1)));
    }
    reveal_with_fuel(text_between, 2);
    assert(element_text(ts, r) =~= t);
}

/// The document without the last of the members.
pub open spec fn cut_last(xml: Seq<char>, ls: Seq<Lexeme>, rs: Seq<(int, int)>) -> Seq<char> {
    let (x, y) = rs.last();
    trim_blank_end(before(xml, ls, x)) + xml.skip(before(xml, ls, y + 1).len() as int)
}

/// Its events.
pub open spec fn cut_events(ls: Seq<Lexeme>, rs: Seq<(int, int)>) -> Seq<Lexeme> {
    let (x, y) = rs.last();
    replaced(ls, ahead_of_text(ls, x), past_text(ls, y), cut(ls, x, y))
}

/// Where a cut is made, and that it is made between the members of a group.
pub proof fn lemma_cut_place(
    xml: Seq<char>,
    ls: Seq<Lexeme>,
    x: int,
    y: int,
    g: int,
    m: int,
    uid: u32,
)
    requires
        well_scanned(ls),
        xml == bom(xml) + source(ls),
        system_range(tokens_of(ls)) is Ok,
        is_member(tokens_of(ls), (x, y), g, m),
        holds_uid(ls, (x, y), uid),
    ensures
        ({
            let ts = tokens_of(ls);
            let (gx, gy) = system_children(ts, "group"@)[g];
            let p = ahead_of_text(ls, x);
            let q = past_text(ls, y);
            let w = tokens_of(cut(ls, x, y));
            &&& inside(ts, p, q, w, "group"@, g)
            &&& 0 <= system(ts).0 < gx < p <= x < y < q <= gy < system(ts).1 < ts.len()
            &&& 1 < x
            &&& ts[x] == Token::Start("member"@)
            &&& close_of(ts, x, gy) == Some(y)
            &&& ls[gy].token is End
            &&& balanced(ts.subrange(gx + 1, p))
        }),
{
    let ts = tokens_of(ls);
    lemma_child_place(ts, "group"@, g);
    lemma_system(ts);
    let (gx, gy) = system_children(ts, "group"@)[g];
    if gx == gy {
        assert(child_ranges(ts, gx + 1, gy, "member"@).len() == 0);
    }
    lemma_children(ts, gx + 1, gy, "member"@, m);
    assert(ls[gy].token == ts[gy]);
    lemma_cut(xml, ls, x, y, gy);
    let p = ahead_of_text(ls, x);
    assert(gx < p) by {
        if p == gx {
            assert(ls[x - 1].token is Text);
            assert(ts[gx] is Start);
        }
    }
    assert(balanced(ts.subrange(gx + 1, p))) by {
        lemma_balanced(ts, gx + 1, x);
        lemma_balanced(ts, gx + 1, p);
        if p < x {
            assert(ts[p] is Text);
            assert(depth_at(ts, x) == depth_at(ts, p));
        }
    }
}

/// The groups after a cut, member for member.
pub proof fn lemma_cut_groups(
    xml: Seq<char>,
    ls: Seq<Lexeme>,
    x: int,
    y: int,
    g: int,
    m: int,
    uid: u32,
)
    requires
        well_scanned(ls),
        xml == bom(xml) + source(ls),
        system_range(tokens_of(ls)) is Ok,
        is_member(tokens_of(ls), (x, y), g, m),
        holds_uid(ls, (x, y), uid),
    ensures
        ({
            let ts = tokens_of(ls);
            let p = ahead_of_text(ls, x);
            let q = past_text(ls, y);
            let w = tokens_of(cut(ls, x, y));
            let us = edited(ts, p, q, w);
            let b = w.len() - (q - p);
            let rs = system_children(ts, "group"@);
            let ss = system_children(us, "group"@);
            let (gx, gy) = rs[g];
            &&& system_range(us) is Ok
            &&& ss == moved_ranges(rs, p, b)
            &&& same_groups_but(ts, us, rs, ss, g, m)
            &&& forall|i: int|
                0 <= i < rs.len() && i != g ==> (#[trigger] rs[i]).1 < gx || rs[i].0 > gy
            &&& forall|i: int|
                0 <= i < rs.len() ==> 0 <= (#[trigger] rs[i]).0 <= rs[i].1 < ts.len()
            &&& members_of(us, g) == members_of(ts, g).take(m) + shifted_ranges(
                members_of(ts, g).skip(m + 1),
                b,
            )
            &&& forall|i: int|
                0 <= i < m ==> 0 <= (#[trigger] members_of(ts, g)[i]).0 <= members_of(ts, g)[i].1
                    < p
            &&& forall|i: int|
                m < i < members_of(ts, g).len() ==> q <= (
                #[trigger] members_of(ts, g)[i]).0 <= members_of(ts, g)[i].1 < gy
        }),
{
    let ts = tokens_of(ls);
    lemma_cut_place(xml, ls, x, y, g, m, uid);
    let rs = system_children(ts, "group"@);
    let (gx, gy) = rs[g];
    lemma_cut(xml, ls, x, y, gy);
    let p = ahead_of_text(ls, x);
    let q = past_text(ls, y);
    let w = tokens_of(cut(ls, x, y));
    let us = edited(ts, p, q, w);
    let b = w.len() - (q - p);
    lemma_inside(ts, p, q, w, "group"@, g, "group"@);
    lemma_child_place(ts, "group"@, g);
    let ss = system_children(us, "group"@);
    assert(ss[g] == (gx, gy + b));
    lemma_group_cut(ts, p, q, w, gx, gy, x, y);
    let a = child_ranges(ts, gx + 1, p, "member"@);
    let c = child_ranges(ts, q, gy, "member"@);
    let ms = members_of(ts, g);
    assert(ms == a + seq![(x, y)] + c);
    assert(a.len() == m) by {
        if m < a.len() {
            assert(ms[m] == a[m]);
        } else if m > a.len() {
            assert(ms[m] == c[m - a.len() - 1]);
        }
    }
    assert(ms.take(m) =~= a);
    assert(ms.skip(m + 1) =~= c);
    assert forall|i: int| 0 <= i < m implies 0 <= (#[trigger] ms[i]).0 <= ms[i].1 < p by {
        assert(ms[i] == a[i]);
    }
    assert forall|i: int| m < i < ms.len() implies q <= (#[trigger] ms[i]).0 <= ms[i].1 < gy by {
        assert(ms[i] == c[i - m - 1]);
    }
    assert forall|i: int| 0 <= i < rs.len() implies 0 <= (#[trigger] rs[i]).0 <= rs[i].1
        < ts.len() by {
        lemma_child_place(ts, "group"@, i);
    }
    assert forall|i: int| 0 <= i < rs.len() implies {
        &&& child_text(us, ss[i], "name"@) == child_text(ts, #[trigger] rs[i], "name"@)
        &&& child_texts(us, ss[i], "member"@) == if i == g {
            child_texts(ts, rs[i], "member"@).remove(m)
        } else {
            child_texts(ts, rs[i], "member"@)
        }
    } by {
        if i != g {
            assert(0 <= rs[i].0);
            lemma_kept_element(ts, p, q, w, rs[i], "name"@);
            lemma_kept_element(ts, p, q, w, rs[i], "member"@);
            assert(ss[i] == moved_range(rs[i], p, b));
        }
    }
    assert(child_texts(ts, rs[g], "member"@).len() == ms.len());
}

/// A member of another group is where it was, moved with its group.
pub proof fn lemma_other_group(
    ts: Seq<Token>,
    p: int,
    q: int,
    w: Seq<Token>,
    r: (int, int),
)
    requires
        0 <= p <= q <= ts.len(),
        0 <= r.0 <= r.1 < ts.len(),
        clear_of(r, p, q),
    ensures
        ({
            let us = edited(ts, p, q, w);
            let b = w.len() - (q - p);
            let t = moved_range(r, p, b);
            let d = if r.1 < p {
                0
            } else {
                b
            };
            let ms = child_ranges(ts, r.0 + 1, r.1, "member"@);
            &&& child_ranges(us, t.0 + 1, t.1, "member"@) == shifted_ranges(ms, d)
            &&& forall|i: int|
                0 <= i < ms.len() ==> {
                    &&& r.0 < (#[trigger] ms[i]).0 <= ms[i].1 < r.1
                    &&& element_text(us, (ms[i].0 + d, ms[i].1 + d)) == element_text(ts, ms[i])
                }
        }),
{
    let us = edited(ts, p, q, w);
    let b = w.len() - (q - p);
    let d = if r.1 < p {
        0
    } else {
        b
    };
    let ms = child_ranges(ts, r.0 + 1, r.1, "member"@);
    if r.0 < r.1 {
        assert(crate::edit::same_events(ts, us, r.0 + 1, r.1, d));
        crate::edit::lemma_children_shift(ts, us, r.0 + 1, r.1, d, "member"@);
        assert forall|i: int| 0 <= i < ms.len() implies {
            &&& r.0 < (#[trigger] ms[i]).0 <= ms[i].1 < r.1
            &&& element_text(us, (ms[i].0 + d, ms[i].1 + d)) == element_text(ts, ms[i])
        } by {
            lemma_children(ts, r.0 + 1, r.1, "member"@, i);
            let (x, y) = ms[i];
            if x < y {
                assert(crate::edit::same_events(ts, us, x + 1, y, d));
                crate::edit::lemma_text_shift(ts, us, x + 1, y, d);
            }
        }
    } else {
        assert(shifted_ranges(ms, d) =~= Seq::<(int, int)>::empty());
    }
}

/// A member of a group is where it was, moved with its group.
pub proof fn lemma_member_moved(ts: Seq<Token>, p: int, q: int, w: Seq<Token>, g: int)
    requires
        0 <= p <= q <= ts.len(),
        children_kept(ts, p, q, w, "group"@),
        0 <= g < system_children(ts, "group"@).len(),
    ensures
        ({
            let us = edited(ts, p, q, w);
            let b = w.len() - (q - p);
            let ms = members_of(ts, g);
            &&& system_children(us, "group"@).len() == system_children(ts, "group"@).len()
            &&& members_of(us, g).len() == ms.len()
            &&& forall|m: int|
                0 <= m < ms.len() ==> {
                    &&& members_of(us, g)[m] == moved_range(#[trigger] ms[m], p, b)
                    &&& element_text(us, members_of(us, g)[m]) == element_text(ts, ms[m])
                    &&& 0 <= ms[m].0 <= ms[m].1 < ts.len()
                    &&& clear_of(ms[m], p, q)
                }
        }),
{
    let us = edited(ts, p, q, w);
    let b = w.len() - (q - p);
    let r = system_children(ts, "group"@)[g];
    lemma_other_group(ts, p, q, w, r);
    assert(system_children(us, "group"@)[g] == moved_range(r, p, b));
    let ms = members_of(ts, g);
    let d = if r.1 < p {
        0
    } else {
        b
    };
    assert(members_of(us, g) == shifted_ranges(ms, d));
    assert forall|m: int| 0 <= m < ms.len() implies {
        &&& members_of(us, g)[m] == moved_range(#[trigger] ms[m], p, b)
        &&& element_text(us, members_of(us, g)[m]) == element_text(ts, ms[m])
        &&& 0 <= ms[m].0 <= ms[m].1 < ts.len()
        &&& clear_of(ms[m], p, q)
    } by {
        assert(shifted_ranges(ms, d)[m] == (ms[m].0 + d, ms[m].1 + d));
    }
}

// ---------- Taking out all members ----------

/// The document without a member is read as the events around it.
pub proof fn lemma_takes_out(xml: Seq<char>, ls: Seq<Lexeme>, x: int, y: int)
    requires
        well_scanned(ls),
        xml == bom(xml) + source(ls),
        stands(tokens_of(ls), (x, y)),
    ensures
        ({
            let p = ahead_of_text(ls, x);
            let q = past_text(ls, y);
            let v = cut(ls, x, y);
            let new = trim_blank_end(before(xml, ls, x)) + xml.skip(
                before(xml, ls, y + 1).len() as int,
            );
            let next = replaced(ls, p, q, v);
            &&& takes_out(tokens_of(ls), p, q, tokens_of(v), (x, y))
            &&& lexemes(new) == Ok::<Seq<Lexeme>, Seq<char>>(next)
            &&& well_scanned(next)
            &&& new == bom(new) + source(next)
            &&& bom(new) == bom(xml)
            &&& tokens_of(next) == edited(tokens_of(ls), p, q, tokens_of(v))
            &&& p <= next.len()
            &&& next.take(p) == ls.take(p)
        }),
{
    let ts = tokens_of(ls);
    lemma_depth_bound(ts, x);
    lemma_cut(xml, ls, x, y, ls.len() as int);
    let p = ahead_of_text(ls, x);
    let v = cut(ls, x, y);
    let w = tokens_of(v);
    let next = replaced(ls, p, past_text(ls, y), v);
    assert(next.take(p) =~= ls.take(p));
    if p < x {
        assert(ts[p] is Text);
        assert(depth_at(ts, x) == depth_at(ts, p));
    }
    assert forall|m: int| 0 <= m < w.len() implies #[trigger] w[m] is Text by {
        assert(w[m] == v[m].token);
    }
}

/// The members in front of a cut.
proof fn lemma_cut_front(ls: Seq<Lexeme>, rs: Seq<(int, int)>, uid: u32, k: int)
    requires
        rs.len() > 0,
        removable(ls, rs, uid),
        0 <= k < rs.len() - 1,
    ensures
        rs[k].1 < ahead_of_text(ls, rs.last().0),
        stands(tokens_of(ls), rs[k]),
{
    let ts = tokens_of(ls);
    let (x, y) = rs.last();
    assert(rs[rs.len() - 1] == (x, y));
    let r = rs[k];
    assert(stands(ts, r));
    crate::tree::lemma_close_from(ts, r.0 + 1, ts.len() as int, 1);
    assert(ts[r.1] == ls[r.1].token);
}

/// A group that does not have the member is kept when it is taken out.
proof fn lemma_stray_groups(ts: Seq<Token>, p: int, q: int, w: Seq<Token>, r: (int, int))
    requires
        takes_out(ts, p, q, w, r),
        system_range(ts) is Ok,
        !in_group(ts, r),
    ensures
        children_kept(ts, p, q, w, "group"@),
{
    let rs = system_children(ts, "group"@);
    lemma_taken_children(ts, p, q, w, r, "group"@);
    assert forall|k: int| 0 <= k < rs.len() implies clear_of(#[trigger] rs[k], p, q) && 0
        <= rs[k].0 <= rs[k].1 < ts.len() by {
        lemma_taken_child(ts, p, q, w, r, "group"@, k);
        if !clear_of(rs[k], p, q) {
            lemma_taken_member(ts, p, q, w, r, k);
            assert(is_member(
                ts,
                r,
                k,
                child_ranges(ts, rs[k].0 + 1, p, "member"@).len() as int,
            ));
        }
    }
}

/// A member that is left in the group of the one that is taken out was there
/// before.
proof fn lemma_left_here(
    xml: Seq<char>,
    ls: Seq<Lexeme>,
    x: int,
    y: int,
    g: int,
    m: int,
    uid: u32,
    mk: int,
)
    requires
        well_scanned(ls),
        xml == bom(xml) + source(ls),
        system_range(tokens_of(ls)) is Ok,
        is_member(tokens_of(ls), (x, y), g, m),
        holds_uid(ls, (x, y), uid),
        ({
            let us = edited(
                tokens_of(ls),
                ahead_of_text(ls, x),
                past_text(ls, y),
                tokens_of(cut(ls, x, y)),
            );
            0 <= mk < members_of(us, g).len()
        }),
    ensures
        ({
            let ts = tokens_of(ls);
            let p = ahead_of_text(ls, x);
            let q = past_text(ls, y);
            let w = tokens_of(cut(ls, x, y));
            let us = edited(ts, p, q, w);
            let j = if mk < m {
                mk
            } else {
                mk + 1
            };
            let o = members_of(ts, g)[j];
            &&& is_member(ts, o, g, j)
            &&& members_of(us, g)[mk] == moved_range(o, p, w.len() - (q - p))
            &&& element_text(us, members_of(us, g)[mk]) == element_text(ts, o)
            &&& o.1 < p || o.0 >= q
            &&& p <= x < y < q
        }),
{
    let ts = tokens_of(ls);
    lemma_cut_place(xml, ls, x, y, g, m, uid);
    lemma_cut_groups(xml, ls, x, y, g, m, uid);
    let p = ahead_of_text(ls, x);
    let q = past_text(ls, y);
    let w = tokens_of(cut(ls, x, y));
    let b = w.len() - (q - p);
    let ms = members_of(ts, g);
    if mk < m {
        lemma_kept_element(ts, p, q, w, ms[mk], "name"@);
    } else {
        let o = ms[mk + 1];
        assert(ms.skip(m + 1)[mk - m] == o);
        lemma_kept_element(ts, p, q, w, o, "name"@);
        assert(moved_range(o, p, b) == (o.0 + b, o.1 + b));
    }
}

/// A member that is left in that group and stands for the uid.
proof fn lemma_covered_here(
    xml: Seq<char>,
    ls: Seq<Lexeme>,
    rs: Seq<(int, int)>,
    g: int,
    m: int,
    uid: u32,
    r: (int, int),
    mk: int,
)
    requires
        well_scanned(ls),
        xml == bom(xml) + source(ls),
        system_range(tokens_of(ls)) is Ok,
        rs.len() > 0,
        ascending(rs),
        holds_uid(ls, rs.last(), uid),
        is_member(tokens_of(ls), rs.last(), g, m),
        covers(tokens_of(ls), rs, uid),
        ({
            let us = edited(
                tokens_of(ls),
                ahead_of_text(ls, rs.last().0),
                past_text(ls, rs.last().1),
                tokens_of(cut(ls, rs.last().0, rs.last().1)),
            );
            is_member(us, r, g, mk) && is_uid(element_text(us, r), uid)
        }),
    ensures
        rs.drop_last().contains(r),
{
    let ts = tokens_of(ls);
    let (x, y) = rs.last();
    let last = rs.len() - 1;
    assert(rs[last] == (x, y));
    lemma_left_here(xml, ls, x, y, g, m, uid, mk);
    let j = if mk < m {
        mk
    } else {
        mk + 1
    };
    let o = members_of(ts, g)[j];
    assert(is_member(ts, o, g, j));
    let k = choose|k: int| 0 <= k < rs.len() && rs[k] == o;
    assert(k == last || rs[k].1 < rs[last].0);
    assert(rs.drop_last()[k] == r);
}

/// A member that is left in another group than the one that is taken out.
proof fn lemma_covered_there(
    xml: Seq<char>,
    ls: Seq<Lexeme>,
    rs: Seq<(int, int)>,
    g: int,
    m: int,
    uid: u32,
    r: (int, int),
    gk: int,
    mk: int,
)
    requires
        well_scanned(ls),
        xml == bom(xml) + source(ls),
        system_range(tokens_of(ls)) is Ok,
        rs.len() > 0,
        ascending(rs),
        holds_uid(ls, rs.last(), uid),
        is_member(tokens_of(ls), rs.last(), g, m),
        covers(tokens_of(ls), rs, uid),
        gk != g,
        ({
            let us = edited(
                tokens_of(ls),
                ahead_of_text(ls, rs.last().0),
                past_text(ls, rs.last().1),
                tokens_of(cut(ls, rs.last().0, rs.last().1)),
            );
            is_member(us, r, gk, mk) && is_uid(element_text(us, r), uid)
        }),
    ensures
        rs.drop_last().contains(r),
{
    let ts = tokens_of(ls);
    let (x, y) = rs.last();
    let last = rs.len() - 1;
    assert(rs[last] == (x, y));
    lemma_cut_place(xml, ls, x, y, g, m, uid);
    lemma_cut_groups(xml, ls, x, y, g, m, uid);
    let p = ahead_of_text(ls, x);
    let q = past_text(ls, y);
    let w = tokens_of(cut(ls, x, y));
    let us = edited(ts, p, q, w);
    let b = w.len() - (q - p);
    let groups = system_children(ts, "group"@);
    let (gx, gy) = groups[g];
    let rest = rs.drop_last();
    assert(system_children(us, "group"@).len() == groups.len());
    let t = groups[gk];
    assert(t.1 < gx || t.0 > gy);
    lemma_other_group(ts, p, q, w, t);
    assert(system_children(us, "group"@)[gk] == moved_range(t, p, b));
    let o = child_ranges(ts, t.0 + 1, t.1, "member"@)[mk];
    assert(is_member(ts, o, gk, mk));
    assert(is_uid(element_text(ts, o), uid));
    let k = choose|k: int| 0 <= k < rs.len() && rs[k] == o;
    assert(k == last || rs[k].1 < rs[last].0);
    assert(t.1 < gx);
    assert(r == o);
    assert(rest[k] == r);
}

/// A member that is left and stands for the uid was one of those to be taken out,
/// where the one that is taken out is a member of a group.
proof fn lemma_cut_covered(
    xml: Seq<char>,
    ls: Seq<Lexeme>,
    rs: Seq<(int, int)>,
    g: int,
    m: int,
    uid: u32,
    r: (int, int),
    gk: int,
    mk: int,
)
    requires
        well_scanned(ls),
        xml == bom(xml) + source(ls),
        system_range(tokens_of(ls)) is Ok,
        rs.len() > 0,
        ascending(rs),
        holds_uid(ls, rs.last(), uid),
        is_member(tokens_of(ls), rs.last(), g, m),
        covers(tokens_of(ls), rs, uid),
        ({
            let us = edited(
                tokens_of(ls),
                ahead_of_text(ls, rs.last().0),
                past_text(ls, rs.last().1),
                tokens_of(cut(ls, rs.last().0, rs.last().1)),
            );
            is_member(us, r, gk, mk) && is_uid(element_text(us, r), uid)
        }),
    ensures
        rs.drop_last().contains(r),
{
    if gk == g {
        lemma_covered_here(xml, ls, rs, g, m, uid, r, mk);
    } else {
        lemma_covered_there(xml, ls, rs, g, m, uid, r, gk, mk);
    }
}

/// A member that is left and stands for the uid was one of those to be taken out,
/// where the one that is taken out is no member of a group.
proof fn lemma_stray_covered(
    ts: Seq<Token>,
    p: int,
    q: int,
    w: Seq<Token>,
    rs: Seq<(int, int)>,
    uid: u32,
    r: (int, int),
    g: int,
    m: int,
)
    requires
        rs.len() > 0,
        takes_out(ts, p, q, w, rs.last()),
        system_range(ts) is Ok,
        !in_group(ts, rs.last()),
        forall|k: int| 0 <= k < rs.len() - 1 ==> (#[trigger] rs[k]).1 < p,
        covers(ts, rs, uid),
        is_member(edited(ts, p, q, w), r, g, m),
        is_uid(element_text(edited(ts, p, q, w), r), uid),
    ensures
        rs.drop_last().contains(r),
{
    lemma_stray_groups(ts, p, q, w, rs.last());
    assert(system_children(edited(ts, p, q, w), "group"@).len() == system_children(
        ts,
        "group"@,
    ).len());
    lemma_member_moved(ts, p, q, w, g);
    let o = members_of(ts, g)[m];
    assert(is_member(ts, o, g, m));
    let k = choose|k: int| 0 <= k < rs.len() && rs[k] == o;
    assert(k < rs.len() - 1) by {
        if k == rs.len() - 1 {
            assert(in_group(ts, rs.last()));
        }
    }
    assert(rs[k].1 < p);
    assert(r == o);
    assert(rs.drop_last()[k] == r);
}

/// What a cut leaves: the members in front of it are where they were, and no
/// member that stands for the uid is behind it.
proof fn lemma_cut_members(xml: Seq<char>, ls: Seq<Lexeme>, rs: Seq<(int, int)>, uid: u32)
    requires
        well_scanned(ls),
        xml == bom(xml) + source(ls),
        system_range(tokens_of(ls)) is Ok,
        rs.len() > 0,
        removable(ls, rs, uid),
        covers(tokens_of(ls), rs, uid),
    ensures
        removable(cut_events(ls, rs), rs.drop_last(), uid),
        covers(tokens_of(cut_events(ls, rs)), rs.drop_last(), uid),
        all_beside(tokens_of(ls), rs) ==> all_beside(
            tokens_of(cut_events(ls, rs)),
            rs.drop_last(),
        ),
        forall|k: int|
            0 <= k < rs.len() - 1 ==> (#[trigger] rs[k]).1 < ahead_of_text(ls, rs.last().0),
{
    let ts = tokens_of(ls);
    let next = cut_events(ls, rs);
    let us = tokens_of(next);
    let rest = rs.drop_last();
    let (x, y) = rs.last();
    let last = rs.len() - 1;
    assert(rs[last] == (x, y));
    lemma_takes_out(xml, ls, x, y);
    let p = ahead_of_text(ls, x);
    let q = past_text(ls, y);
    let w = tokens_of(cut(ls, x, y));
    assert forall|k: int| 0 <= k < rs.len() - 1 implies (#[trigger] rs[k]).1 < p by {
        lemma_cut_front(ls, rs, uid, k);
    }
    assert forall|k: int| 0 <= k < rest.len() implies stands(us, #[trigger] rest[k]) && holds_uid(
        next,
        rest[k],
        uid,
    ) by {
        let r = rs[k];
        assert(rest[k] == r);
        lemma_cut_front(ls, rs, uid, k);
        lemma_taken_stands(ts, p, q, w, (x, y), r);
        assert(holds_uid(ls, r, uid));
        assert(next[r.0 + 1] == ls[r.0 + 1]);
    }
    assert forall|a: int, c: int| 0 <= a < c < rest.len() implies (#[trigger] rest[a]).1 < (
    #[trigger] rest[c]).0 by {
        assert(rest[a] == rs[a] && rest[c] == rs[c]);
    }
    assert forall|r: (int, int), gk: int, mk: int| #[trigger]
        is_member(us, r, gk, mk) && is_uid(element_text(us, r), uid) implies rest.contains(r) by {
        if in_group(ts, (x, y)) {
            let (g, m) = choose|g: int, m: int| is_member(ts, (x, y), g, m);
            lemma_cut_covered(xml, ls, rs, g, m, uid, r, gk, mk);
        } else {
            lemma_stray_covered(ts, p, q, w, rs, uid, r, gk, mk);
        }
    }
    if all_beside(ts, rs) {
        assert forall|k: int| 0 <= k < rest.len() implies beside_next_uid(
            us,
            #[trigger] rest[k],
        ) by {
            assert(rest[k] == rs[k]);
            lemma_cut_front(ls, rs, uid, k);
            assert(beside_next_uid(ts, rs[last]));
            lemma_taken_beside(ts, p, q, w, (x, y), rs[k]);
        }
    }
}

/// Taking out a member of a group leaves the memberships of other uids as they were.
proof fn lemma_cut_memberships(
    xml: Seq<char>,
    ls: Seq<Lexeme>,
    x: int,
    y: int,
    g: int,
    m: int,
    uid: u32,
)
    requires
        well_scanned(ls),
        xml == bom(xml) + source(ls),
        system_range(tokens_of(ls)) is Ok,
        is_member(tokens_of(ls), (x, y), g, m),
        holds_uid(ls, (x, y), uid),
    ensures
        ({
            let ts = tokens_of(ls);
            let us = edited(ts, ahead_of_text(ls, x), past_text(ls, y), tokens_of(cut(ls, x, y)));
            &&& memberships(us) is Ok
            &&& memberships(ts) is Ok
            &&& without(memberships(us)->Ok_0, uid) == without(memberships(ts)->Ok_0, uid)
        }),
{
    let ts = tokens_of(ls);
    let us = edited(ts, ahead_of_text(ls, x), past_text(ls, y), tokens_of(cut(ls, x, y)));
    let groups = system_children(ts, "group"@);
    let ss = system_children(us, "group"@);
    lemma_cut_groups(xml, ls, x, y, g, m, uid);
    lemma_member_text(ls, (x, y), uid);
    assert(child_texts(ts, groups[g], "member"@)[m] == element_text(ts, (x, y)));
    lemma_groups_but(ts, us, groups, ss, g, m, uid, groups.len() as int);
    assert(groups.take(groups.len() as int) =~= groups);
    assert(ss.take(ss.len() as int) =~= ss);
}

/// Taking out a member leaves the memberships of other uids as they were.
proof fn lemma_taken_memberships(xml: Seq<char>, ls: Seq<Lexeme>, x: int, y: int, uid: u32)
    requires
        well_scanned(ls),
        xml == bom(xml) + source(ls),
        system_range(tokens_of(ls)) is Ok,
        stands(tokens_of(ls), (x, y)),
        holds_uid(ls, (x, y), uid),
    ensures
        ({
            let ts = tokens_of(ls);
            let us = edited(ts, ahead_of_text(ls, x), past_text(ls, y), tokens_of(cut(ls, x, y)));
            &&& memberships(us) is Ok
            &&& memberships(ts) is Ok
            &&& without(memberships(us)->Ok_0, uid) == without(memberships(ts)->Ok_0, uid)
        }),
{
    let ts = tokens_of(ls);
    let p = ahead_of_text(ls, x);
    let q = past_text(ls, y);
    let w = tokens_of(cut(ls, x, y));
    lemma_takes_out(xml, ls, x, y);
    lemma_taken_children(ts, p, q, w, (x, y), "group"@);
    if in_group(ts, (x, y)) {
        let (g, m) = choose|g: int, m: int| is_member(ts, (x, y), g, m);
        lemma_cut_memberships(xml, ls, x, y, g, m, uid);
    } else {
        lemma_stray_groups(ts, p, q, w, (x, y));
        lemma_groups_kept(ts, p, q, w);
    }
}

/// Taking out one member leaves everything else as it was.
pub proof fn lemma_cut_step(xml: Seq<char>, ls: Seq<Lexeme>, rs: Seq<(int, int)>, uid: u32)
    requires
        well_scanned(ls),
        xml == bom(xml) + source(ls),
        system_range(tokens_of(ls)) is Ok,
        rs.len() > 0,
        removable(ls, rs, uid),
        covers(tokens_of(ls), rs, uid),
    ensures
        ({
            let new = cut_last(xml, ls, rs);
            let next = cut_events(ls, rs);
            let us = tokens_of(next);
            &&& lexemes(new) == Ok::<Seq<Lexeme>, Seq<char>>(next)
            &&& well_scanned(next)
            &&& new == bom(new) + source(next)
            &&& system_range(us) is Ok
            &&& removable(next, rs.drop_last(), uid)
            &&& covers(us, rs.drop_last(), uid)
            &&& users(us) == users(tokens_of(ls))
            &&& all_beside(tokens_of(ls), rs) ==> all_beside(us, rs.drop_last()) && next_uid_of(us)
                == next_uid_of(tokens_of(ls))
            &&& memberships(us) is Ok && memberships(tokens_of(ls)) is Ok
            &&& without(memberships(us)->Ok_0, uid) == without(
                memberships(tokens_of(ls))->Ok_0,
                uid,
            )
            &&& positions(new, next, rs.drop_last()) == positions(xml, ls, rs).drop_last()
        }),
{
    let ts = tokens_of(ls);
    let (x, y) = rs.last();
    assert(rs[rs.len() - 1] == (x, y));
    assert(stands(ts, (x, y)) && holds_uid(ls, (x, y), uid));
    let p = ahead_of_text(ls, x);
    let q = past_text(ls, y);
    let w = tokens_of(cut(ls, x, y));
    lemma_takes_out(xml, ls, x, y);
    lemma_taken_children(ts, p, q, w, (x, y), "user"@);
    lemma_taken_users(ts, p, q, w, (x, y));
    if all_beside(ts, rs) {
        assert(beside_next_uid(ts, rs[rs.len() - 1]));
        lemma_taken_next_uid(ts, p, q, w, (x, y));
    }
    lemma_taken_memberships(xml, ls, x, y, uid);
    lemma_cut_members(xml, ls, rs, uid);
    lemma_places_kept(xml, ls, cut_last(xml, ls, rs), cut_events(ls, rs), rs, p, uid);
}

/// Places in front of a cut are kept.
proof fn lemma_places_kept(
    xml: Seq<char>,
    ls: Seq<Lexeme>,
    new: Seq<char>,
    next: Seq<Lexeme>,
    rs: Seq<(int, int)>,
    p: int,
    uid: u32,
)
    requires
        rs.len() > 0,
        removable(ls, rs, uid),
        bom(new) == bom(xml),
        0 <= p <= ls.len(),
        p <= next.len(),
        next.take(p) == ls.take(p),
        forall|k: int| 0 <= k < rs.len() - 1 ==> (#[trigger] rs[k]).1 < p,
    ensures
        positions(new, next, rs.drop_last()) == positions(xml, ls, rs).drop_last(),
{
    let rest = rs.drop_last();
    let old_places = positions(xml, ls, rs).drop_last();
    let new_places = positions(new, next, rest);
    assert forall|k: int| 0 <= k < rest.len() implies new_places[k] == old_places[k] by {
        let r = rs[k];
        assert(rest[k] == r);
        assert(r.1 < p);
        assert(holds_uid(ls, r, uid));
        assert(next.take(r.0) =~= next.take(p).take(r.0));
        assert(ls.take(r.0) =~= ls.take(p).take(r.0));
        assert(next.take(r.1 + 1) =~= next.take(p).take(r.1 + 1));
        assert(ls.take(r.1 + 1) =~= ls.take(p).take(r.1 + 1));
    }
    assert(new_places =~= old_places);
}

/// Where no member stands for the uid, there is no membership of it.
proof fn lemma_no_memberships(ts: Seq<Token>, uid: u32, n: int)
    requires
        covers(ts, Seq::empty(), uid),
        0 <= n <= system_children(ts, "group"@).len(),
    ensures
        forall|i: int|
            0 <= i < memberships_at(ts, system_children(ts, "group"@).take(n)).len() ==> (
            #[trigger] memberships_at(ts, system_children(ts, "group"@).take(n))[i]).0 != uid,
    decreases n,
{
    let groups = system_children(ts, "group"@);
    if n > 0 {
        lemma_no_memberships(ts, uid, n - 1);
        assert(groups.take(n).drop_last() =~= groups.take(n - 1));
        let name = or_empty(child_text(ts, groups[n - 1], "name"@));
        let members = child_texts(ts, groups[n - 1], "member"@);
        assert forall|m: int| 0 <= m < members.len() implies !is_uid(#[trigger] members[m], uid) by {
            let r = members_of(ts, n - 1)[m];
            assert(is_member(ts, r, n - 1, m));
            if is_uid(element_text(ts, r), uid) {
                assert(Seq::<(int, int)>::empty().contains(r));
            }
        }
        lemma_no_memberships_in(name, members, uid);
        let head = memberships_at(ts, groups.take(n - 1));
        let tail = memberships_in(name, members);
        let all = memberships_at(ts, groups.take(n));
        assert(all == head + tail);
        assert forall|i: int| 0 <= i < all.len() implies (#[trigger] all[i]).0 != uid by {
            if i < head.len() {
                assert(all[i] == head[i]);
            } else {
                assert(all[i] == tail[i - head.len()]);
            }
        }
    }
}

proof fn lemma_no_memberships_in(name: Seq<char>, members: Seq<Seq<char>>, uid: u32)
    requires
        forall|m: int| 0 <= m < members.len() ==> !is_uid(#[trigger] members[m], uid),
    ensures
        forall|i: int|
            0 <= i < memberships_in(name, members).len() ==> (
            #[trigger] memberships_in(name, members)[i]).0 != uid,
    decreases members.len(),
{
    if members.len() > 0 {
        assert forall|m: int| 0 <= m < members.drop_last().len() implies !is_uid(
            #[trigger] members.drop_last()[m],
            uid,
        ) by {
            assert(members.drop_last()[m] == members[m]);
        }
        lemma_no_memberships_in(name, members.drop_last(), uid);
        assert(!is_uid(members[members.len() - 1], uid));
        let rest = memberships_in(name, members.drop_last());
        let all = memberships_in(name, members);
        assert forall|i: int| 0 <= i < all.len() implies (#[trigger] all[i]).0 != uid by {
            if i < rest.len() {
                assert(all[i] == rest[i]);
            }
        }
    }
}

/// Taking out all the members takes out the memberships of the uid.
proof fn lemma_cut_all(xml: Seq<char>, ls: Seq<Lexeme>, rs: Seq<(int, int)>, uid: u32)
    requires
        lexemes(xml) == Ok::<Seq<Lexeme>, Seq<char>>(ls),
        well_scanned(ls),
        xml == bom(xml) + source(ls),
        system_range(tokens_of(ls)) is Ok,
        removable(ls, rs, uid),
        covers(tokens_of(ls), rs, uid),
    ensures
        parsed(stripped(xml, positions(xml, ls, rs))) matches Ok(us) && {
            &&& users(us) == users(tokens_of(ls))
            &&& all_beside(tokens_of(ls), rs) ==> next_uid_of(us) == next_uid_of(tokens_of(ls))
            &&& memberships(us) == Ok::<Seq<(u32, Seq<char>)>, Failure>(
                without(memberships(tokens_of(ls))->Ok_0, uid),
            )
        },
    decreases rs.len(),
{
    let ts = tokens_of(ls);
    let places = positions(xml, ls, rs);
    if rs.len() == 0 {
        let groups = system_children(ts, "group"@);
        assert(rs =~= Seq::<(int, int)>::empty());
        lemma_no_memberships(ts, uid, groups.len() as int);
        assert(groups.take(groups.len() as int) =~= groups);
        lemma_without_all(memberships(ts)->Ok_0, uid);
    } else {
        let (x, y) = rs.last();
        assert(rs[rs.len() - 1] == (x, y));
        assert(holds_uid(ls, (x, y), uid));
        lemma_cut_step(xml, ls, rs, uid);
        let new = cut_last(xml, ls, rs);
        let next = cut_events(ls, rs);
        lemma_before(xml, ls, x, y + 1);
        assert(xml.take(before(xml, ls, x).len() as int) =~= before(xml, ls, x));
        assert(stripped(xml, places) == stripped(new, places.drop_last()));
        lemma_cut_all(new, next, rs.drop_last(), uid);
    }
}

// ---------- The members that are looked for ----------

/// Every range that is found holds the uid, at its depth.
pub proof fn lemma_found(ls: Seq<Lexeme>, i: int, uid: u32, k: int)
    requires
        0 <= i,
        0 <= k < member_ranges(ls, i, uid).len(),
    ensures
        ({
            let ts = tokens_of(ls);
            let (x, y) = member_ranges(ls, i, uid)[k];
            &&& i <= x < y < ls.len()
            &&& ts[x] == Token::Start("member"@)
            &&& depth_at(ts, x) == 3
            &&& close_of(ts, x, ts.len() as int) == Some(y)
            &&& trimmed(source(ls.subrange(x + 1, y))) == decimal(uid as nat)
        }),
    decreases ls.len() - i,
{
    let ts = tokens_of(ls);
    let rest = member_ranges(ls, i + 1, uid);
    let all = member_ranges(ls, i, uid);
    crate::tree::lemma_close_from(ts, i + 1, ts.len() as int, 1);
    if all.len() == rest.len() {
        assert(all =~= rest);
        lemma_found(ls, i + 1, uid, k);
    } else if k > 0 {
        assert(all[k] == rest[k - 1]);
        lemma_found(ls, i + 1, uid, k - 1);
    }
}

pub proof fn lemma_found_ascending(ls: Seq<Lexeme>, i: int, uid: u32)
    requires
        0 <= i,
    ensures
        ascending(member_ranges(ls, i, uid)),
    decreases ls.len() - i,
{
    let ts = tokens_of(ls);
    let all = member_ranges(ls, i, uid);
    if i < ls.len() {
        let rest = member_ranges(ls, i + 1, uid);
        lemma_found_ascending(ls, i + 1, uid);
        if all.len() == rest.len() {
            assert(all =~= rest);
        } else {
            lemma_found(ls, i, uid, 0);
            let (x, y) = all[0];
            assert(x == i);
            assert forall|a: int, b: int| 0 <= a < b < all.len() implies (#[trigger] all[a]).1 < (
            #[trigger] all[b]).0 by {
                assert(all[b] == rest[b - 1]);
                if a > 0 {
                    assert(all[a] == rest[a - 1]);
                } else {
                    lemma_found(ls, i + 1, uid, b - 1);
                    crate::tree::lemma_close_depth(ts, x + 1, ts.len() as int, 1);
                    assert(depth_at(ts, x + 1) == 4);
                    assert(depth_at(ts, all[b].0) == 3);
                }
            }
        }
    }
}

/// Text that is a number with white space around it is read as one text.
pub proof fn lemma_one_text(ls: Seq<Lexeme>, x: int, y: int, uid: u32)
    requires
        well_scanned(ls),
        0 <= x < y < ls.len(),
        trimmed(source(ls.subrange(x + 1, y))) == decimal(uid as nat),
    ensures
        holds_uid(ls, (x, y), uid),
{
    let part = ls.subrange(x + 1, y);
    let t = source(part);
    let number = decimal(uid as nat);
    decimal_is_digits(uid as nat);
    lemma_trim_parts(t);
    assert(!t.contains('<')) by {
        if t.contains('<') {
            let i = choose|i: int| 0 <= i < t.len() && t[i] == '<';
            let p = |c: char| is_space(c);
            let start = trim_start_by(t, p);
            let lead = t.len() - start.len();
            assert(!is_space(t[i]));
            assert(start[i - lead] == t[i]);
            assert(number[i - lead] == t[i]);
            assert(is_digit(number[i - lead]));
        }
    }
    assert(t.len() > 0);
    assert(part.len() > 0);
    reveal(well_placed);
    lemma_source_first(part);
    assert(part[0] == ls[x + 1]);
    assert(well_read(ls[x + 1], open_at(ls, x + 1)));
    if ls[x + 1].token !is Text {
        assert(t[0] == ls[x + 1].raw[0]);
        assert(t.contains('<'));
    }
    let rest = part.drop_first();
    if rest.len() > 0 {
        lemma_source_first(rest);
        assert(rest[0] == ls[x + 2]);
        assert(ls[x + 2].token !is Text) by {
            if ls[x + 2].token is Text {
                assert(ls[x + 1].token !is Text);
            }
        }
        assert(well_read(ls[x + 2], open_at(ls, x + 2)));
        assert(t[ls[x + 1].raw.len() as int] == '<');
        assert(t.contains('<'));
    }
    assert(rest =~= Seq::<Lexeme>::empty());
    assert(t =~= ls[x + 1].raw);
}

/// After the memberships of a uid have been taken out, exactly they are not read
/// any more. Every membership of the uid is to be made by a member that holds it as
/// it is written, with white space around it or not. Where such a member stands in
/// the `<nextuid>` that is read, the next uid can be another afterwards.
pub proof fn remove_membership_round_trip(xml: Seq<char>, ls: Seq<Lexeme>, uid: u32)
    requires
        lexemes(xml) == Ok::<Seq<Lexeme>, Seq<char>>(ls),
        xml == bom(xml) + source(ls),
        well_scanned(ls),
        system_range(tokens_of(ls)) is Ok,
        covers(tokens_of(ls), member_ranges(ls, 0, uid), uid),
    ensures
        mutated(xml, Change::RemoveGroupMembership(uid)) matches Ok(new) && parsed(
            new,
        ) matches Ok(ts) && {
            &&& memberships(ts) == Ok::<Seq<(u32, Seq<char>)>, Failure>(
                without(memberships(tokens_of(ls))->Ok_0, uid),
            )
            &&& users(ts) == users(tokens_of(ls))
            &&& all_beside(tokens_of(ls), member_ranges(ls, 0, uid)) ==> next_uid_of(ts)
                == next_uid_of(tokens_of(ls))
        },
{
    lemma_found_removable(ls, uid);
    lemma_cut_all(xml, ls, member_ranges(ls, 0, uid), uid);
}

/// The members that are found can be taken out.
pub proof fn lemma_found_removable(ls: Seq<Lexeme>, uid: u32)
    requires
        well_scanned(ls),
    ensures
        removable(ls, member_ranges(ls, 0, uid), uid),
{
    let rs = member_ranges(ls, 0, uid);
    lemma_found_ascending(ls, 0, uid);
    assert forall|k: int| 0 <= k < rs.len() implies stands(tokens_of(ls), #[trigger] rs[k])
        && holds_uid(ls, rs[k], uid) by {
        lemma_found(ls, 0, uid, k);
        lemma_one_text(ls, rs[k].0, rs[k].1, uid);
    }
}

// ---------- All changes ----------

/// What is read from `new`, the document `xml` with the change made.
pub open spec fn reads_back(xml: Seq<char>, change: Change, new: Seq<char>) -> bool {
    let ls = lexemes(xml)->Ok_0;
    let ts = tokens_of(ls);
    system_range(ts) is Ok ==> match change {
        Change::AppendUser(row) => regular(ts) && users(ts) is Ok && writable(row) ==> {
            &&& parsed(new) matches Ok(us)
            &&& users(us) == Ok::<Seq<Row>, Failure>(users(ts)->Ok_0.push(row))
            &&& next_uid_of(us) == next_uid_of(ts)
            &&& memberships(us) == memberships(ts)
        },
        Change::ReplaceUser(row) => users(ts) is Ok && writable(row) ==> forall|k: int|
            0 <= k < system_children(ts, "user"@).len() && named_element(
                ts,
                0,
                "user"@,
                row.name,
            ) == Some(#[trigger] system_children(ts, "user"@)[k]) ==> {
                &&& parsed(new) matches Ok(us)
                &&& users(us) == Ok::<Seq<Row>, Failure>(users(ts)->Ok_0.update(k, row))
                &&& next_uid_of(us) == next_uid_of(ts)
                &&& memberships(us) == memberships(ts)
            },
        Change::RemoveUser(name) => users(ts) is Ok ==> forall|k: int|
            0 <= k < system_children(ts, "user"@).len() && named_element(ts, 0, "user"@, name)
                == Some(#[trigger] system_children(ts, "user"@)[k]) ==> {
                &&& parsed(new) matches Ok(us)
                &&& users(us) == Ok::<Seq<Row>, Failure>(users(ts)->Ok_0.remove(k))
                &&& next_uid_of(us) == next_uid_of(ts)
                &&& memberships(us) == memberships(ts)
            },
        Change::AddGroupMember(group, uid) => forall|k: int|
            0 <= k < system_children(ts, "group"@).len() && named_element(ts, 0, "group"@, group)
                == Some(#[trigger] system_children(ts, "group"@)[k]) && child_text(
                ts,
                system_children(ts, "group"@)[k],
                "name"@,
            ) == Some(group) ==> {
                &&& parsed(new) matches Ok(us)
                &&& memberships(us) matches Ok(list)
                &&& exists|i: int|
                    0 <= i <= memberships(ts)->Ok_0.len() && list
                        == #[trigger] memberships(ts)->Ok_0.insert(i, (uid, group))
                &&& users(us) == users(ts)
                &&& next_uid_of(us) == next_uid_of(ts)
            },
        Change::RemoveGroupMembership(uid) => covers(ts, member_ranges(ls, 0, uid), uid) ==> {
            &&& parsed(new) matches Ok(us)
            &&& memberships(us) == Ok::<Seq<(u32, Seq<char>)>, Failure>(
                without(memberships(ts)->Ok_0, uid),
            )
            &&& users(us) == users(ts)
            &&& all_beside(ts, member_ranges(ls, 0, uid)) ==> next_uid_of(us) == next_uid_of(ts)
        },
        Change::SetNextUid(n) => system_children(ts, "nextuid"@).len() > 0 && first_named(
            ts,
            0,
            "nextuid"@,
        ) == Some(system_children(ts, "nextuid"@)[0].0) ==> {
            &&& parsed(new) matches Ok(us)
            &&& next_uid_of(us) == Ok::<u32, Failure>(n)
            &&& users(us) == users(ts)
            &&& memberships(us) == memberships(ts)
        },
    }
}

/// A change that is made is read back.
pub proof fn mutation_round_trip(xml: Seq<char>, ls: Seq<Lexeme>, change: Change)
    requires
        lexemes(xml) == Ok::<Seq<Lexeme>, Seq<char>>(ls),
        xml == bom(xml) + source(ls),
        well_scanned(ls),
        mutated(xml, change) is Ok,
    ensures
        reads_back(xml, change, mutated(xml, change)->Ok_0),
{
    let ts = tokens_of(ls);
    let new = mutated(xml, change)->Ok_0;
    if system_range(ts) is Ok {
        match change {
            Change::AppendUser(row) => {
                if regular(ts) && users(ts) is Ok && writable(row) {
                    append_user_round_trip(xml, ls, row);
                }
            },
            Change::ReplaceUser(row) => {
                if users(ts) is Ok && writable(row) {
                    assert forall|k: int|
                        0 <= k < system_children(ts, "user"@).len() && named_element(
                            ts,
                            0,
                            "user"@,
                            row.name,
                        ) == Some(#[trigger] system_children(ts, "user"@)[k]) implies {
                        &&& parsed(new) matches Ok(us)
                        &&& users(us) == Ok::<Seq<Row>, Failure>(users(ts)->Ok_0.update(k, row))
                        &&& next_uid_of(us) == next_uid_of(ts)
                        &&& memberships(us) == memberships(ts)
                    } by {
                        replace_user_round_trip(xml, ls, row, k);
                    }
                }
            },
            Change::RemoveUser(name) => {
                if users(ts) is Ok {
                    assert forall|k: int|
                        0 <= k < system_children(ts, "user"@).len() && named_element(
                            ts,
                            0,
                            "user"@,
                            name,
                        ) == Some(#[trigger] system_children(ts, "user"@)[k]) implies {
                        &&& parsed(new) matches Ok(us)
                        &&& users(us) == Ok::<Seq<Row>, Failure>(users(ts)->Ok_0.remove(k))
                        &&& next_uid_of(us) == next_uid_of(ts)
                        &&& memberships(us) == memberships(ts)
                    } by {
                        remove_user_round_trip(xml, ls, name, k);
                    }
                }
            },
            Change::AddGroupMember(group, uid) => {
                assert forall|k: int|
                    0 <= k < system_children(ts, "group"@).len() && named_element(
                        ts,
                        0,
                        "group"@,
                        group,
                    ) == Some(#[trigger] system_children(ts, "group"@)[k]) && child_text(
                        ts,
                        system_children(ts, "group"@)[k],
                        "name"@,
                    ) == Some(group) implies {
                    &&& parsed(new) matches Ok(us)
                    &&& memberships(us) matches Ok(list)
                    &&& exists|i: int|
                        0 <= i <= memberships(ts)->Ok_0.len() && list
                            == #[trigger] memberships(ts)->Ok_0.insert(i, (uid, group))
                    &&& users(us) == users(ts)
                    &&& next_uid_of(us) == next_uid_of(ts)
                } by {
                    add_group_member_round_trip(xml, ls, group, uid, k);
                }
            },
            Change::RemoveGroupMembership(uid) => {
                if covers(ts, member_ranges(ls, 0, uid), uid) {
                    remove_membership_round_trip(xml, ls, uid);
                }
            },
            Change::SetNextUid(n) => {
                if system_children(ts, "nextuid"@).len() > 0 && first_named(ts, 0, "nextuid"@)
                    == Some(system_children(ts, "nextuid"@)[0].0) {
                    set_next_uid_round_trip(xml, ls, n);
                }
            },
        }
    }
}

} // verus!
