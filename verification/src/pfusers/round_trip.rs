//! What is read from a document after it has been changed.

use crate::edit::{
    balanced, edited, lemma_balanced, lemma_children, lemma_children_concat, lemma_children_edit,
    lemma_children_replaced, lemma_children_shift, lemma_child_text_shift, lemma_close_bound,
    lemma_close_skip, lemma_inner_balanced, lemma_root_depth, lemma_root_edit, lemma_root_start, lemma_text_shift,
    moved, moved_ranges, same_events, shifted_ranges,
};
use crate::numbers::{
    all_digits, decimal, decimal_is_digits, decimal_round_trip, is_digit, parsed_number,
};
use crate::pfusers::document::{
    memberships, memberships_at, memberships_in, next_uid_of, or_empty, parsed, system_range,
    user_at, users, users_at,
};
use crate::pfusers::errors::Failure;
use crate::pfusers::mutation::{
    first_closed, first_named, first_start, indent_of, indentation, is_blank, last_line,
    lemma_before, lemma_trim_blank_prefix, member_line, mutated, named_element, spliced, tokens_of,
    trim_blank_end, user_indent, Change,
};
use crate::pfusers::pieces::{
    block_pieces, block_round_trip, enclosed, is_indent, lemma_block, lemma_tokens_concat,
    lemma_whole_concat, lemma_whole_empty, lemma_whole_enclosed, lemma_whole_text, text_pieces,
    whole, writable,
};
use crate::pfusers::rows::{user_block, Row};
use crate::tree::{
    child_ranges, child_text, child_texts, close_from, close_of, depth_at, element_text,
    lemma_close_from, plain_unescape, root_range, text_between, text_value,
};
use crate::xml::{
    before, bom, is_name, lemma_open_concat, lemma_open_prefix, lemma_placed_concat,
    lemma_placed_part, lemma_source_concat, lemma_source_first, lexemes, open_at, open_from, rescan,
    source, text_piece, well_placed, well_read, well_scanned, Lexeme, Token,
};
use vstd::prelude::*;

verus! {

// ---------- Replacing events ----------

/// `ls` with the events from `p` up to `q` replaced by `v`.
pub open spec fn replaced(ls: Seq<Lexeme>, p: int, q: int, v: Seq<Lexeme>) -> Seq<Lexeme> {
    ls.take(p) + v + ls.skip(q)
}

/// No two texts meet where `v` is put in place of the events from `p` up to `q`.
pub open spec fn apart(ls: Seq<Lexeme>, p: int, q: int, v: Seq<Lexeme>) -> bool {
    if v.len() > 0 {
        &&& p > 0 ==> ls[p - 1].token !is Text || v[0].token !is Text
        &&& q < ls.len() ==> v.last().token !is Text || ls[q].token !is Text
    } else {
        0 < p && q < ls.len() ==> ls[p - 1].token !is Text || ls[q].token !is Text
    }
}

proof fn lemma_open_depth(base: Seq<Seq<char>>, v: Seq<Lexeme>, k: int)
    requires
        well_placed(base, v),
        balanced(tokens_of(v)),
        0 <= k <= v.len(),
    ensures
        base.is_prefix_of(open_from(base, v, k)),
        open_from(base, v, k).len() == base.len() + depth_at(tokens_of(v), k),
    decreases k,
{
    if k > 0 {
        lemma_open_depth(base, v, k - 1);
        let ts = tokens_of(v);
        let open = open_from(base, v, k - 1);
        assert(ts[k - 1] == v[k - 1].token);
        assert(depth_at(ts, k) >= 0);
        if v[k - 1].token is End {
            assert(open.len() > base.len());
            assert(base =~= open.drop_last().take(base.len() as int));
        }
    } else {
        assert(base.is_prefix_of(base));
    }
}

/// Behind balanced events the same elements are open as in front of them.
pub proof fn lemma_open_balanced(base: Seq<Seq<char>>, v: Seq<Lexeme>)
    requires
        well_placed(base, v),
        balanced(tokens_of(v)),
    ensures
        open_from(base, v, v.len() as int) == base,
{
    lemma_open_depth(base, v, v.len() as int);
    assert(open_from(base, v, v.len() as int) =~= base);
}

/// A document in which balanced events are replaced by others is read as the
/// events around them with the new ones in between.
pub proof fn lemma_replaced(xml: Seq<char>, ls: Seq<Lexeme>, p: int, q: int, v: Seq<Lexeme>)
    requires
        well_scanned(ls),
        xml == bom(xml) + source(ls),
        0 < p <= q <= ls.len(),
        balanced(tokens_of(ls).subrange(p, q)),
        whole(open_at(ls, p), v),
        apart(ls, p, q, v),
    ensures
        ({
            let new = before(xml, ls, p) + source(v) + source(ls.skip(q));
            let next = replaced(ls, p, q, v);
            &&& well_scanned(next)
            &&& new == bom(new) + source(next)
            &&& bom(new) == bom(xml)
            &&& lexemes(new) == Ok::<Seq<Lexeme>, Seq<char>>(next)
            &&& tokens_of(next) == edited(tokens_of(ls), p, q, tokens_of(v))
        }),
{
    let base = open_at(ls, p);
    let head = ls.take(p);
    let tail = ls.skip(q);
    let next = replaced(ls, p, q, v);
    let new = before(xml, ls, p) + source(v) + source(tail);
    let none = Seq::<Seq<char>>::empty();
    assert(ls.subrange(0, p) =~= head);
    assert(ls.subrange(q, ls.len() as int) =~= tail);
    lemma_placed_part(none, ls, 0, p);
    lemma_placed_part(none, ls, q, ls.len() as int);
    lemma_placed_part(none, ls, p, q);
    assert(tokens_of(ls.subrange(p, q)) =~= tokens_of(ls).subrange(p, q));
    lemma_open_balanced(base, ls.subrange(p, q));
    assert(open_at(ls, q) == base);
    assert(open_from(none, head, p) == base) by {
        lemma_open_prefix(none, head, ls, p);
    }
    assert(head.last() == ls[p - 1]);
    if v.len() > 0 {
        lemma_placed_concat(none, head, v);
    } else {
        assert(head + v =~= head);
    }
    lemma_open_concat(none, head, v, v.len() as int);
    assert(open_from(none, head + v, (head + v).len() as int) == base);
    assert(v.len() > 0 ==> (head + v).last() == v.last());
    assert(v.len() == 0 ==> (head + v).last() == head.last());
    if tail.len() > 0 {
        assert(tail[0] == ls[q]);
    }
    lemma_placed_concat(none, head + v, tail);
    lemma_source_concat(head, v);
    lemma_source_concat(head + v, tail);
    assert(new =~= bom(xml) + source(next));
    // The byte order mark is kept, and none appears.
    lemma_source_first(ls);
    lemma_source_first(head);
    assert(head[0] == ls[0]);
    reveal(well_placed);
    assert(well_read(ls[0], open_from(none, ls, 0)));
    assert(ls[0].raw.len() > 0);
    assert(source(ls)[0] == ls[0].raw[0]);
    assert(source(head)[0] == ls[0].raw[0]);
    assert(new[0] == xml[0]);
    assert(bom(new) =~= bom(xml));
    rescan(new, next);
    assert(tokens_of(next) =~= edited(tokens_of(ls), p, q, tokens_of(v)));
}

// ---------- Elements that are kept ----------

/// Where a range stands after an edit that it does not hold.
pub open spec fn moved_range(r: (int, int), p: int, b: int) -> (int, int) {
    (moved(r.0, p, b), moved(r.1, p, b))
}

/// The edit is outside of the element.
pub open spec fn clear_of(r: (int, int), p: int, q: int) -> bool {
    r.1 < p || r.0 >= q
}

/// An element outside of an edit keeps its content.
pub proof fn lemma_kept_element(
    ts: Seq<Token>,
    p: int,
    q: int,
    w: Seq<Token>,
    r: (int, int),
    name: Seq<char>,
)
    requires
        0 <= p <= q <= ts.len(),
        0 <= r.0 <= r.1 < ts.len(),
        clear_of(r, p, q),
    ensures
        ({
            let us = edited(ts, p, q, w);
            let s = moved_range(r, p, w.len() - (q - p));
            &&& element_text(us, s) == element_text(ts, r)
            &&& child_text(us, s, name) == child_text(ts, r, name)
            &&& child_texts(us, s, name) == child_texts(ts, r, name)
            &&& child_ranges(us, s.0 + 1, s.1, name).len() == child_ranges(
                ts,
                r.0 + 1,
                r.1,
                name,
            ).len()
            &&& user_at(us, s) == user_at(ts, r)
        }),
{
    let us = edited(ts, p, q, w);
    let b = if r.1 < p {
        0
    } else {
        w.len() - (q - p)
    };
    assert(moved_range(r, p, w.len() - (q - p)) == (r.0 + b, r.1 + b));
    lemma_element_shift(ts, us, r, b, name);
}

/// An element that is moved as a whole keeps its content.
proof fn lemma_element_shift(
    ts: Seq<Token>,
    us: Seq<Token>,
    r: (int, int),
    b: int,
    name: Seq<char>,
)
    requires
        0 <= r.0 <= r.1 < ts.len(),
        0 <= r.0 + b,
        r.1 + b < us.len(),
        forall|k: int| r.0 < k < r.1 ==> #[trigger] ts[k] == us[k + b],
    ensures
        element_text(us, (r.0 + b, r.1 + b)) == element_text(ts, r),
        child_text(us, (r.0 + b, r.1 + b), name) == child_text(ts, r, name),
        child_texts(us, (r.0 + b, r.1 + b), name) == child_texts(ts, r, name),
        child_ranges(us, r.0 + b + 1, r.1 + b, name).len() == child_ranges(
            ts,
            r.0 + 1,
            r.1,
            name,
        ).len(),
        user_at(us, (r.0 + b, r.1 + b)) == user_at(ts, r),
{
    reveal(user_at);
    if r.0 < r.1 {
        assert(same_events(ts, us, r.0 + 1, r.1, b));
        lemma_text_shift(ts, us, r.0 + 1, r.1, b);
        lemma_child_text_shift(ts, us, r, b, name);
        lemma_children_shift(ts, us, r.0 + 1, r.1, b, name);
        lemma_child_text_shift(ts, us, r, b, "name"@);
        lemma_child_text_shift(ts, us, r, b, "descr"@);
        lemma_child_text_shift(ts, us, r, b, "uid"@);
        lemma_child_text_shift(ts, us, r, b, "scope"@);
        lemma_child_text_shift(ts, us, r, b, "expires"@);
        lemma_children_shift(ts, us, r.0 + 1, r.1, b, "disabled"@);
        lemma_child_text_shift(ts, us, r, b, "priv"@);
        lemma_child_text_shift(ts, us, r, b, "authorizedkeys"@);
        lemma_child_text_shift(ts, us, r, b, "bcrypt-hash"@);
        lemma_child_text_shift(ts, us, r, b, "sha512-hash"@);
        lemma_child_text_shift(ts, us, r, b, "md5-hash"@);
    } else {
        assert(child_texts(us, (r.0 + b, r.1 + b), name) =~= child_texts(ts, r, name));
        assert(child_texts(us, (r.0 + b, r.1 + b), "priv"@) =~= child_texts(ts, r, "priv"@));
    }
}

/// Ranges that hold the same users make the same list.
pub proof fn lemma_users_agree(
    ts: Seq<Token>,
    us: Seq<Token>,
    rs: Seq<(int, int)>,
    ss: Seq<(int, int)>,
)
    requires
        rs.len() == ss.len(),
        forall|k: int| 0 <= k < rs.len() ==> user_at(us, ss[k]) == user_at(ts, #[trigger] rs[k]),
    ensures
        users_at(us, ss) == users_at(ts, rs),
    decreases rs.len(),
{
    if rs.len() > 0 {
        assert forall|k: int| 0 <= k < rs.drop_last().len() implies user_at(us, ss.drop_last()[k])
            == user_at(ts, #[trigger] rs.drop_last()[k]) by {
            assert(rs.drop_last()[k] == rs[k]);
        }
        lemma_users_agree(ts, us, rs.drop_last(), ss.drop_last());
        assert(rs.last() == rs[rs.len() - 1]);
    }
}

/// Ranges that hold the same groups make the same memberships.
proof fn lemma_memberships_agree(
    ts: Seq<Token>,
    us: Seq<Token>,
    rs: Seq<(int, int)>,
    ss: Seq<(int, int)>,
)
    requires
        rs.len() == ss.len(),
        forall|k: int|
            0 <= k < rs.len() ==> {
                &&& child_text(us, ss[k], "name"@) == child_text(ts, #[trigger] rs[k], "name"@)
                &&& child_texts(us, ss[k], "member"@) == child_texts(ts, rs[k], "member"@)
            },
    ensures
        memberships_at(us, ss) == memberships_at(ts, rs),
    decreases rs.len(),
{
    if rs.len() > 0 {
        assert forall|k: int| 0 <= k < rs.drop_last().len() implies {
            &&& child_text(us, ss.drop_last()[k], "name"@) == child_text(
                ts,
                #[trigger] rs.drop_last()[k],
                "name"@,
            )
            &&& child_texts(us, ss.drop_last()[k], "member"@) == child_texts(
                ts,
                rs.drop_last()[k],
                "member"@,
            )
        } by {
            assert(rs.drop_last()[k] == rs[k]);
        }
        lemma_memberships_agree(ts, us, rs.drop_last(), ss.drop_last());
        assert(rs.last() == rs[rs.len() - 1]);
    }
}

// ---------- The system element ----------

/// The `<system>` that is read is the one that changes go to: it is the first
/// one level below the top, and has a start tag and an end tag.
pub open spec fn regular(ts: Seq<Token>) -> bool {
    system_range(ts) matches Ok(sys) && sys.0 < sys.1 && first_closed(ts, 0, "system"@, 1) == Some(
        sys,
    )
}

/// Where `<system>` is, in a document that has one.
pub open spec fn system(ts: Seq<Token>) -> (int, int) {
    system_range(ts)->Ok_0
}

/// The tags around `<system>`.
pub proof fn lemma_system(ts: Seq<Token>)
    requires
        system_range(ts) is Ok,
        system(ts).0 < system(ts).1,
    ensures
        ({
            let (s, e) = system(ts);
            &&& root_range(ts, 0, "pfsense"@) matches Some((x, y)) && 0 <= x < s < e < y < ts.len()
                && close_of(ts, x, ts.len() as int) == Some(y) && balanced(ts.subrange(x + 1, s))
                && close_of(ts, s, y) == Some(e) && child_ranges(ts, x + 1, y, "system"@).len() > 0
                && child_ranges(ts, x + 1, y, "system"@)[0] == (s, e)
            &&& ts[s] == Token::Start("system"@)
            &&& ts[e] is End
            &&& balanced(ts.subrange(s + 1, e))
        }),
{
    let (x, y) = root_range(ts, 0, "pfsense"@)->0;
    lemma_root_start(ts, 0, "pfsense"@);
    lemma_children(ts, x + 1, y, "system"@, 0);
    let (s, e) = system(ts);
    lemma_inner_balanced(ts, s, e, y);
}

/// `<system>` is one level below the top.
pub proof fn lemma_system_depth(ts: Seq<Token>)
    requires
        system_range(ts) is Ok,
    ensures
        ({
            let (s, e) = system(ts);
            &&& root_range(ts, 0, "pfsense"@) matches Some((x, y)) && 0 <= x < s <= e < y < ts.len()
                && depth_at(ts, x) == 0 && ts[x] is Start && close_of(ts, x, ts.len() as int)
                == Some(y) && child_ranges(ts, x + 1, y, "system"@)[0] == (s, e) && (s < e
                ==> close_of(ts, s, y) == Some(e))
            &&& depth_at(ts, s) == 1
            &&& s < e ==> ts[s] is Start
            &&& s == e ==> ts[s] is Empty
        }),
{
    let (x, y) = root_range(ts, 0, "pfsense"@)->0;
    lemma_root_start(ts, 0, "pfsense"@);
    lemma_root_depth(ts, 0, "pfsense"@);
    lemma_children(ts, x + 1, y, "system"@, 0);
    let (s, e) = system(ts);
    assert(depth_at(ts, x + 1) == 1);
    lemma_balanced(ts, x + 1, s);
}

/// An edit inside `<system>` moves its end tag.
pub proof fn lemma_system_edit(ts: Seq<Token>, p: int, q: int, w: Seq<Token>)
    requires
        system_range(ts) is Ok,
        system(ts).0 < p <= q <= system(ts).1,
        balanced(ts.subrange(p, q)),
        balanced(w),
    ensures
        system_range(edited(ts, p, q, w)) == Ok::<(int, int), Failure>(
            (system(ts).0, system(ts).1 + w.len() - (q - p)),
        ),
{
    let us = edited(ts, p, q, w);
    let b = w.len() - (q - p);
    lemma_system(ts);
    let (s, e) = system(ts);
    let (x, y) = root_range(ts, 0, "pfsense"@)->0;
    lemma_root_edit(ts, p, q, w, 0, "pfsense"@);
    lemma_children_edit(ts, p, q, w, x + 1, y, s, e, "system"@);
    let found = child_ranges(us, x + 1, y + b, "system"@);
    assert(found == moved_ranges(child_ranges(ts, x + 1, y, "system"@), p, b));
    assert(found[0] == (s, e + b));
}

/// The children `name` of `<system>`.
pub open spec fn system_children(ts: Seq<Token>, name: Seq<char>) -> Seq<(int, int)> {
    child_ranges(ts, system(ts).0 + 1, system(ts).1, name)
}

/// Every child `name` of `<system>` is kept by the edit.
pub open spec fn children_kept(
    ts: Seq<Token>,
    p: int,
    q: int,
    w: Seq<Token>,
    name: Seq<char>,
) -> bool {
    let us = edited(ts, p, q, w);
    let b = w.len() - (q - p);
    let rs = system_children(ts, name);
    &&& system_children(us, name) == moved_ranges(rs, p, b)
    &&& forall|k: int|
        0 <= k < rs.len() ==> clear_of(#[trigger] rs[k], p, q) && 0 <= rs[k].0 <= rs[k].1
            < ts.len()
}

/// Users that are kept are read as before.
pub proof fn lemma_users_kept(ts: Seq<Token>, p: int, q: int, w: Seq<Token>)
    requires
        0 <= p <= q <= ts.len(),
        children_kept(ts, p, q, w, "user"@),
        system_range(ts) is Ok,
        system_range(edited(ts, p, q, w)) is Ok,
    ensures
        users(edited(ts, p, q, w)) == users(ts),
{
    let us = edited(ts, p, q, w);
    let b = w.len() - (q - p);
    let rs = system_children(ts, "user"@);
    let ss = moved_ranges(rs, p, b);
    assert forall|k: int| 0 <= k < rs.len() implies user_at(us, ss[k]) == user_at(
        ts,
        #[trigger] rs[k],
    ) by {
        lemma_kept_element(ts, p, q, w, rs[k], "name"@);
        assert(ss[k] == moved_range(rs[k], p, b));
    }
    lemma_users_agree(ts, us, rs, ss);
}

/// Groups that are kept are read as before.
pub proof fn lemma_groups_kept(ts: Seq<Token>, p: int, q: int, w: Seq<Token>)
    requires
        0 <= p <= q <= ts.len(),
        children_kept(ts, p, q, w, "group"@),
        system_range(ts) is Ok,
        system_range(edited(ts, p, q, w)) is Ok,
    ensures
        memberships(edited(ts, p, q, w)) == memberships(ts),
{
    let us = edited(ts, p, q, w);
    let b = w.len() - (q - p);
    let rs = system_children(ts, "group"@);
    let ss = moved_ranges(rs, p, b);
    assert forall|k: int| 0 <= k < rs.len() implies {
        &&& child_text(us, ss[k], "name"@) == child_text(ts, #[trigger] rs[k], "name"@)
        &&& child_texts(us, ss[k], "member"@) == child_texts(ts, rs[k], "member"@)
    } by {
        lemma_kept_element(ts, p, q, w, rs[k], "name"@);
        lemma_kept_element(ts, p, q, w, rs[k], "member"@);
        assert(ss[k] == moved_range(rs[k], p, b));
    }
    lemma_memberships_agree(ts, us, rs, ss);
}

/// A next uid that is kept is read as before.
pub proof fn lemma_next_uid_kept(ts: Seq<Token>, p: int, q: int, w: Seq<Token>)
    requires
        0 <= p <= q <= ts.len(),
        children_kept(ts, p, q, w, "nextuid"@),
        system_range(ts) is Ok,
        system_range(edited(ts, p, q, w)) is Ok,
    ensures
        next_uid_of(edited(ts, p, q, w)) == next_uid_of(ts),
{
    let us = edited(ts, p, q, w);
    let b = w.len() - (q - p);
    let rs = system_children(ts, "nextuid"@);
    if rs.len() > 0 {
        lemma_kept_element(ts, p, q, w, rs[0], "name"@);
        assert(moved_ranges(rs, p, b)[0] == moved_range(rs[0], p, b));
    }
}

/// An edit between children of `<system>`.
pub open spec fn between(ts: Seq<Token>, p: int, q: int, w: Seq<Token>) -> bool {
    &&& system_range(ts) is Ok
    &&& system(ts).0 < p <= q <= system(ts).1
    &&& balanced(ts.subrange(system(ts).0 + 1, p))
    &&& balanced(ts.subrange(p, q))
    &&& balanced(w)
}

/// The children of `<system>` after an edit between them.
pub proof fn lemma_between(ts: Seq<Token>, p: int, q: int, w: Seq<Token>, name: Seq<char>)
    requires
        between(ts, p, q, w),
    ensures
        ({
            let us = edited(ts, p, q, w);
            let b = w.len() - (q - p);
            let (s, e) = system(ts);
            let a = child_ranges(ts, s + 1, p, name);
            let c = child_ranges(ts, q, e, name);
            &&& system(us) == (s, e + b)
            &&& system_range(us) is Ok
            &&& system_children(ts, name) == a + child_ranges(ts, p, q, name) + c
            &&& system_children(us, name) == a + shifted_ranges(
                child_ranges(w, 0, w.len() as int, name),
                p,
            ) + shifted_ranges(c, b)
            &&& forall|k: int|
                0 <= k < a.len() ==> 0 <= (#[trigger] a[k]).0 <= a[k].1 < p && clear_of(a[k], p, q)
            &&& forall|k: int|
                0 <= k < c.len() ==> q <= (#[trigger] c[k]).0 <= c[k].1 < e && clear_of(c[k], p, q)
            &&& 0 <= s < e < ts.len()
        }),
{
    let (s, e) = system(ts);
    lemma_system(ts);
    lemma_system_edit(ts, p, q, w);
    lemma_children_replaced(ts, p, q, w, s + 1, e, name);
    let a = child_ranges(ts, s + 1, p, name);
    let c = child_ranges(ts, q, e, name);
    assert forall|k: int| 0 <= k < a.len() implies 0 <= (#[trigger] a[k]).0 <= a[k].1 < p
        && clear_of(a[k], p, q) by {
        lemma_children(ts, s + 1, p, name, k);
    }
    assert forall|k: int| 0 <= k < c.len() implies q <= (#[trigger] c[k]).0 <= c[k].1 < e
        && clear_of(c[k], p, q) by {
        lemma_children(ts, q, e, name, k);
    }
}

/// Children are kept by an edit between them that neither removes nor adds any.
pub proof fn lemma_kept_between(ts: Seq<Token>, p: int, q: int, w: Seq<Token>, name: Seq<char>)
    requires
        between(ts, p, q, w),
        child_ranges(ts, p, q, name).len() == 0,
        child_ranges(w, 0, w.len() as int, name).len() == 0,
    ensures
        children_kept(ts, p, q, w, name),
{
    lemma_between(ts, p, q, w, name);
    let us = edited(ts, p, q, w);
    let b = w.len() - (q - p);
    let (s, e) = system(ts);
    let a = child_ranges(ts, s + 1, p, name);
    let c = child_ranges(ts, q, e, name);
    let rs = system_children(ts, name);
    assert(rs =~= a + c);
    assert forall|k: int| 0 <= k < rs.len() implies clear_of(#[trigger] rs[k], p, q) && 0
        <= rs[k].0 <= rs[k].1 < ts.len() by {
        if k < a.len() {
            assert(rs[k] == a[k]);
        } else {
            assert(rs[k] == c[k - a.len()]);
        }
    }
    assert(system_children(us, name) =~= moved_ranges(rs, p, b));
}

/// The element that `enclosed` makes is the only one at its level.
proof fn lemma_enclosed_children(
    base: Seq<Seq<char>>,
    tag: Seq<char>,
    inner: Seq<Lexeme>,
    tail: Seq<Lexeme>,
    name: Seq<char>,
)
    requires
        whole(base, inner),
        tail.len() <= 1,
        tail.len() == 1 ==> tail[0].token is Text,
    ensures
        ({
            let w = tokens_of(enclosed(tag, inner) + tail);
            &&& close_of(w, 0, w.len() as int) == Some(inner.len() as int + 1)
            &&& child_ranges(w, 0, w.len() as int, name) == if name == tag {
                seq![(0int, inner.len() as int + 1)]
            } else {
                Seq::empty()
            }
        }),
{
    let all = enclosed(tag, inner) + tail;
    let w = tokens_of(all);
    let m = inner.len() as int;
    let n = w.len() as int;
    assert(all[0].token == Token::Start(tag));
    assert(all[m + 1].token == Token::End(tag));
    assert(w.subrange(1, m + 1) =~= tokens_of(inner));
    lemma_close_skip(w, 1, m + 1, n, 1);
    assert(close_of(w, 0, n) == Some(m + 1));
    reveal_with_fuel(child_ranges, 3);
    if tail.len() == 1 {
        assert(all[m + 2] == tail[0]);
        assert(w[m + 2] is Text);
    }
    assert(child_ranges(w, m + 2, n, name) =~= Seq::<(int, int)>::empty());
    assert(child_ranges(w, 0, n, name) =~= if name == tag {
        seq![(0int, m + 1)]
    } else {
        Seq::empty()
    });
}

proof fn lemma_indentation(s: Seq<char>)
    ensures
        is_indent(indentation(s)),
    decreases s.len(),
{
    if s.len() > 0 && (s[0] == ' ' || s[0] == '\t') {
        let rest = indentation(s.drop_first());
        lemma_indentation(s.drop_first());
        let all = seq![s[0]] + rest;
        assert forall|i: int| 0 <= i < all.len() implies #[trigger] all[i] == ' ' || all[i] == '\t' by {
            if i > 0 {
                assert(all[i] == rest[i - 1]);
            }
        }
    }
}

pub proof fn lemma_user_indent(xml: Seq<char>, ls: Seq<Lexeme>)
    ensures
        is_indent(user_indent(xml, ls)),
{
    reveal_strlit("\t\t");
    match first_start(tokens_of(ls), 0, "user"@, 2) {
        Some(i) => {
            lemma_indentation(crate::pfusers::mutation::last_line(before(xml, ls, i)));
        },
        None => {},
    }
}

/// The names that are looked for in `<system>` differ.
pub proof fn lemma_system_names()
    ensures
        "user"@ != "group"@,
        "user"@ != "nextuid"@,
        "group"@ != "nextuid"@,
{
    reveal_strlit("user");
    reveal_strlit("group");
    reveal_strlit("nextuid");
    assert("user"@.len() == 4 && "group"@.len() == 5 && "nextuid"@.len() == 7);
}

// ---------- Lists of users ----------

/// A list of users that can be read holds one row for each element.
proof fn lemma_users_rows(ts: Seq<Token>, rs: Seq<(int, int)>)
    requires
        users_at(ts, rs) is Ok,
    ensures
        ({
            let rows = users_at(ts, rs)->Ok_0;
            &&& rows.len() == rs.len()
            &&& forall|k: int|
                0 <= k < rs.len() ==> user_at(ts, #[trigger] rs[k]) == Ok::<Row, Failure>(rows[k])
        }),
    decreases rs.len(),
{
    if rs.len() > 0 {
        lemma_users_rows(ts, rs.drop_last());
        let rows = users_at(ts, rs)->Ok_0;
        assert forall|k: int| 0 <= k < rs.len() implies user_at(ts, #[trigger] rs[k]) == Ok::<
            Row,
            Failure,
        >(rows[k]) by {
            if k < rs.len() - 1 {
                assert(rs.drop_last()[k] == rs[k]);
            }
        }
    }
}

/// Elements that can each be read make a list of users.
proof fn lemma_users_list(ts: Seq<Token>, rs: Seq<(int, int)>, rows: Seq<Row>)
    requires
        rows.len() == rs.len(),
        forall|k: int|
            0 <= k < rs.len() ==> user_at(ts, #[trigger] rs[k]) == Ok::<Row, Failure>(rows[k]),
    ensures
        users_at(ts, rs) == Ok::<Seq<Row>, Failure>(rows),
    decreases rs.len(),
{
    if rs.len() > 0 {
        assert forall|k: int| 0 <= k < rs.drop_last().len() implies user_at(
            ts,
            #[trigger] rs.drop_last()[k],
        ) == Ok::<Row, Failure>(rows.drop_last()[k]) by {
            assert(rs.drop_last()[k] == rs[k]);
        }
        lemma_users_list(ts, rs.drop_last(), rows.drop_last());
        assert(rs.last() == rs[rs.len() - 1]);
        assert(rows.drop_last().push(rows.last()) =~= rows);
    } else {
        assert(rows =~= Seq::<Row>::empty());
    }
}

/// Where a child stands among the children of `<system>`.
pub proof fn lemma_child_place(ts: Seq<Token>, name: Seq<char>, k: int)
    requires
        system_range(ts) is Ok,
        0 <= k < system_children(ts, name).len(),
    ensures
        ({
            let (s, e) = system(ts);
            let (x, y) = system_children(ts, name)[k];
            &&& 0 <= s < x <= y < e < ts.len()
            &&& balanced(ts.subrange(s + 1, x))
            &&& x == y ==> ts[x] == Token::Empty(name)
            &&& x < y ==> ts[x] == Token::Start(name) && ts[y] is End && close_of(ts, x, e)
                == Some(y)
            &&& child_ranges(ts, s + 1, x, name).len() == k
            &&& x < y ==> child_ranges(ts, x, e, name) == seq![(x, y)] + child_ranges(
                ts,
                y + 1,
                e,
                name,
            )
            &&& forall|m: int|
                0 <= m < system_children(ts, name).len() && m != k ==> (
                #[trigger] system_children(ts, name)[m]).1 < x || system_children(ts, name)[m].0 > y
        }),
{
    lemma_system(ts);
    let (s, e) = system(ts);
    let rs = system_children(ts, name);
    lemma_children(ts, s + 1, e, name, k);
    let (x, y) = rs[k];
    lemma_children_concat(ts, s + 1, x, e, name);
    let a = child_ranges(ts, s + 1, x, name);
    let c = child_ranges(ts, x, e, name);
    let d = if x < y {
        child_ranges(ts, y + 1, e, name)
    } else {
        child_ranges(ts, x + 1, e, name)
    };
    assert(c == seq![(x, y)] + d);
    assert forall|m: int| 0 <= m < a.len() implies (#[trigger] a[m]).1 < x by {
        lemma_children(ts, s + 1, x, name, m);
    }
    assert forall|m: int| 0 <= m < d.len() implies (#[trigger] d[m]).0 > y by {
        if x < y {
            lemma_children(ts, y + 1, e, name, m);
        } else {
            lemma_children(ts, x + 1, e, name, m);
        }
    }
    assert(rs == a + c);
    assert(k == a.len()) by {
        if k < a.len() {
            assert(rs[k] == a[k]);
        } else if k > a.len() {
            assert(rs[k] == d[k - a.len() - 1]);
        }
    }
    assert forall|m: int| 0 <= m < rs.len() && m != k implies (#[trigger] rs[m]).1 < x || rs[m].0
        > y by {
        if m < k {
            assert(rs[m] == a[m]);
        } else {
            assert(rs[m] == d[m - k - 1]);
        }
    }
}

// ---------- Edits inside a child of the system element ----------

/// An edit inside the child `k` named `tag` of `<system>`.
pub open spec fn inside(
    ts: Seq<Token>,
    p: int,
    q: int,
    w: Seq<Token>,
    tag: Seq<char>,
    k: int,
) -> bool {
    &&& system_range(ts) is Ok
    &&& 0 <= k < system_children(ts, tag).len()
    &&& system_children(ts, tag)[k].0 < p <= q <= system_children(ts, tag)[k].1
    &&& balanced(ts.subrange(p, q))
    &&& balanced(w)
}

pub proof fn lemma_inside(
    ts: Seq<Token>,
    p: int,
    q: int,
    w: Seq<Token>,
    tag: Seq<char>,
    k: int,
    name: Seq<char>,
)
    requires
        inside(ts, p, q, w, tag, k),
    ensures
        ({
            let us = edited(ts, p, q, w);
            let b = w.len() - (q - p);
            let (s, e) = system(ts);
            &&& system(us) == (s, e + b)
            &&& system_range(us) is Ok
            &&& system_children(us, name) == moved_ranges(system_children(ts, name), p, b)
            &&& name != tag ==> children_kept(ts, p, q, w, name)
        }),
{
    let us = edited(ts, p, q, w);
    let b = w.len() - (q - p);
    lemma_child_place(ts, tag, k);
    let (s, e) = system(ts);
    let (x, y) = system_children(ts, tag)[k];
    lemma_system_edit(ts, p, q, w);
    lemma_children_edit(ts, p, q, w, s + 1, e, x, y, name);
    if name != tag {
        let rs = system_children(ts, name);
        assert forall|m: int| 0 <= m < rs.len() implies clear_of(#[trigger] rs[m], p, q) && 0
            <= rs[m].0 <= rs[m].1 < ts.len() by {
            lemma_other_child(ts, s + 1, e, x, y, name, m);
        }
    }
}

/// Children of different names do not overlap.
proof fn lemma_other_child(
    ts: Seq<Token>,
    i: int,
    end: int,
    x: int,
    y: int,
    name: Seq<char>,
    m: int,
)
    requires
        0 <= i <= x < y < end <= ts.len(),
        balanced(ts.subrange(i, x)),
        ts[x] is Start,
        ts[x] != Token::Start(name),
        close_of(ts, x, end) == Some(y),
        0 <= m < child_ranges(ts, i, end, name).len(),
    ensures
        ({
            let r = child_ranges(ts, i, end, name)[m];
            &&& 0 <= r.0 <= r.1 < end
            &&& r.1 < x || r.0 > y
        }),
{
    let a = child_ranges(ts, i, x, name);
    let c = child_ranges(ts, y + 1, end, name);
    lemma_children_concat(ts, i, x, end, name);
    assert(child_ranges(ts, x, end, name) =~= c);
    if m < a.len() {
        lemma_children(ts, i, x, name, m);
    } else {
        assert(child_ranges(ts, i, end, name)[m] == c[m - a.len()]);
        lemma_children(ts, y + 1, end, name, m - a.len());
    }
}

// ---------- Setting the next uid ----------

/// A next uid that is set is read back, and nothing else is read differently.
pub proof fn set_next_uid_round_trip(xml: Seq<char>, ls: Seq<Lexeme>, n: u32)
    requires
        lexemes(xml) == Ok::<Seq<Lexeme>, Seq<char>>(ls),
        xml == bom(xml) + source(ls),
        well_scanned(ls),
        system_range(tokens_of(ls)) is Ok,
        system_children(tokens_of(ls), "nextuid"@).len() > 0,
        first_named(tokens_of(ls), 0, "nextuid"@) == Some(
            system_children(tokens_of(ls), "nextuid"@)[0].0,
        ),
    ensures
        mutated(xml, Change::SetNextUid(n)) matches Ok(new) && parsed(new) matches Ok(ts) && {
            &&& next_uid_of(ts) == Ok::<u32, Failure>(n)
            &&& users(ts) == users(tokens_of(ls))
            &&& memberships(ts) == memberships(tokens_of(ls))
        },
{
    let ts = tokens_of(ls);
    lemma_child_place(ts, "nextuid"@, 0);
    let (s, e) = system(ts);
    let (i, j) = system_children(ts, "nextuid"@)[0];
    lemma_first_named(ts, 0, "nextuid"@);
    assert(i < j);
    lemma_close_wider(ts, i, e, ts.len() as int);
    lemma_inner_balanced(ts, i, j, e);
    let text = decimal(n as nat);
    decimal_is_digits(n as nat);
    decimal_round_trip(n as nat, u32::MAX as nat);
    lemma_digits_plain(text);
    let base = open_at(ls, i + 1);
    let v = seq![text_piece(text)];
    let w = tokens_of(v);
    lemma_whole_text(base, text);
    assert(ls[i].token is Start);
    assert(ls[j].token is End);
    lemma_before(xml, ls, i + 1, j);
    lemma_replaced(xml, ls, i + 1, j, v);
    let start = before(xml, ls, i + 1);
    let end = before(xml, ls, j);
    let new = spliced(xml, start, end, text);
    assert(xml.skip(end.len() as int) =~= source(ls.skip(j)));
    let us = edited(ts, i + 1, j, w);
    assert(mutated(xml, Change::SetNextUid(n)) == Ok::<Seq<char>, Failure>(new));
    assert(parsed(new) == Ok::<Seq<Token>, Failure>(us));
    lemma_system_names();
    assert(inside(ts, i + 1, j, w, "nextuid"@, 0));
    lemma_inside(ts, i + 1, j, w, "nextuid"@, 0, "nextuid"@);
    lemma_inside(ts, i + 1, j, w, "nextuid"@, 0, "user"@);
    lemma_inside(ts, i + 1, j, w, "nextuid"@, 0, "group"@);
    lemma_users_kept(ts, i + 1, j, w);
    lemma_groups_kept(ts, i + 1, j, w);
    let found = system_children(us, "nextuid"@);
    assert(found[0] == (i, i + 2));
    assert(us[i + 1] == Token::Text(text));
    reveal_with_fuel(text_between, 2);
    assert(text_value(text) == text);
    assert(element_text(us, found[0]) =~= text);
}

pub proof fn lemma_first_named(ts: Seq<Token>, i: int, name: Seq<char>)
    requires
        0 <= i,
    ensures
        first_named(ts, i, name) matches Some(k) ==> i <= k < ts.len() && ts[k] == Token::Start(
            name,
        ),
    decreases ts.len() - i,
{
    if i < ts.len() && ts[i] != Token::Start(name) {
        lemma_first_named(ts, i + 1, name);
    }
}

pub proof fn lemma_close_wider(ts: Seq<Token>, i: int, end: int, more: int)
    requires
        close_of(ts, i, end) is Some,
        end <= more,
    ensures
        close_of(ts, i, more) == close_of(ts, i, end),
{
    lemma_close_bound(ts, i + 1, end, more, 1);
}

/// Text without references stands for itself.
pub proof fn lemma_plain_text(s: Seq<char>)
    requires
        !s.contains('&'),
    ensures
        plain_unescape(s) == Some(s),
    decreases s.len(),
{
    if s.len() > 0 {
        assert(s[0] != '&') by {
            if s[0] == '&' {
                assert(s.contains('&'));
            }
        }
        assert(!s.drop_first().contains('&')) by {
            if s.drop_first().contains('&') {
                let k = choose|k: int| 0 <= k < s.drop_first().len() && s.drop_first()[k] == '&';
                assert(s[k + 1] == '&');
            }
        }
        lemma_plain_text(s.drop_first());
        assert(seq![s[0]] + s.drop_first() =~= s);
    } else {
        assert(s =~= Seq::<char>::empty());
    }
}

pub proof fn lemma_digits_plain(s: Seq<char>)
    requires
        all_digits(s),
    ensures
        !s.contains('<'),
        text_value(s) == s,
{
    assert forall|i: int| 0 <= i < s.len() implies s[i] != '<' && s[i] != '&' by {
        assert(is_digit(s[i]));
    }
    lemma_plain_text(s);
}

// ---------- Replacing and removing a user ----------

/// The text behind event `i`, where the event that follows is text.
pub open spec fn text_behind(ls: Seq<Lexeme>, i: int) -> Seq<char> {
    if i + 1 < ls.len() && ls[i + 1].token is Text {
        ls[i + 1].raw
    } else {
        Seq::empty()
    }
}

/// The first event behind event `i` that is no text.
pub open spec fn past_text(ls: Seq<Lexeme>, i: int) -> int {
    if i + 1 < ls.len() && ls[i + 1].token is Text {
        i + 2
    } else {
        i + 1
    }
}

proof fn lemma_text_behind(ls: Seq<Lexeme>, i: int)
    requires
        well_scanned(ls),
        0 <= i < ls.len(),
    ensures
        source(ls.skip(i + 1)) == text_behind(ls, i) + source(ls.skip(past_text(ls, i))),
        past_text(ls, i) < ls.len() ==> ls[past_text(ls, i)].token !is Text,
        past_text(ls, i) <= ls.len(),
        !text_behind(ls, i).contains('<'),
{
    reveal(well_placed);
    if i + 1 < ls.len() && ls[i + 1].token is Text {
        lemma_source_first(ls.skip(i + 1));
        assert(ls.skip(i + 1)[0] == ls[i + 1]);
        assert(ls.skip(i + 1).drop_first() =~= ls.skip(i + 2));
        assert(well_read(ls[i + 1], open_at(ls, i + 1)));
        if i + 2 < ls.len() {
            assert(ls[i + 2].token is Text ==> ls[i + 1].token !is Text);
        }
    } else {
        assert(text_behind(ls, i) + source(ls.skip(i + 1)) =~= source(ls.skip(i + 1)));
    }
}

/// An element and the text behind it hold no other elements.
pub proof fn lemma_one_child(ts: Seq<Token>, x: int, y: int, q: int, end: int, name: Seq<char>)
    requires
        0 <= x < y < q <= end <= ts.len(),
        ts[x] is Start,
        close_of(ts, x, end) == Some(y),
        q == y + 1 || (q == y + 2 && ts[y + 1] is Text),
    ensures
        child_ranges(ts, x, q, name) == if ts[x] == Token::Start(name) {
            seq![(x, y)]
        } else {
            Seq::empty()
        },
        balanced(ts.subrange(x, q)),
{
    lemma_close_bound(ts, x + 1, q, end, 1);
    reveal_with_fuel(child_ranges, 3);
    assert(child_ranges(ts, y + 1, q, name) =~= Seq::<(int, int)>::empty());
    lemma_inner_balanced(ts, x, y, end);
    if q == y + 2 {
        assert(depth_at(ts, y + 2) == depth_at(ts, y + 1));
        lemma_balanced(ts, x, y + 1);
        lemma_balanced(ts, x, y + 2);
    }
}

/// The events that stand in place of the user between the events `x` and `y`
/// and the text behind it.
pub open spec fn replacement(xml: Seq<char>, ls: Seq<Lexeme>, row: Row, x: int, y: int) -> Seq<
    Lexeme,
> {
    block_pieces(row, indent_of(before(xml, ls, x))) + seq![
        text_piece(seq!['\n'] + text_behind(ls, y)),
    ]
}

/// The events of a block stand at the top level as one element.
pub proof fn lemma_block_children(row: Row, indent: Seq<char>, tail: Seq<char>, name: Seq<char>)
    requires
        is_indent(indent),
    ensures
        ({
            let block = block_pieces(row, indent);
            let w = tokens_of(block + seq![text_piece(tail)]);
            child_ranges(w, 0, w.len() as int, name) == if name == "user"@ {
                seq![(0int, block.len() as int - 1)]
            } else {
                Seq::empty()
            }
        }),
{
    let base = Seq::<Seq<char>>::empty();
    let inner = crate::pfusers::pieces::lines_pieces(
        indent + "\t"@,
        crate::pfusers::rows::user_fields(row),
    ) + seq![text_piece(seq!['\n'] + indent)];
    crate::pfusers::pieces::lemma_block_inner(base, row, indent);
    lemma_enclosed_children(base.push("user"@), "user"@, inner, seq![text_piece(tail)], name);
}

/// The document with a user replaced is read as the events around it and those
/// of the new block.
pub proof fn lemma_replace_events(xml: Seq<char>, ls: Seq<Lexeme>, row: Row, x: int, y: int, end: int)
    requires
        well_scanned(ls),
        xml == bom(xml) + source(ls),
        0 < x < y < end < ls.len(),
        tokens_of(ls)[x] is Start,
        close_of(tokens_of(ls), x, end) == Some(y),
        ls[end].token is End,
    ensures
        ({
            let q = past_text(ls, y);
            let v = replacement(xml, ls, row, x, y);
            let at = before(xml, ls, x);
            let new = spliced(xml, at, before(xml, ls, y + 1), user_block(row, indent_of(at)));
            &&& y < q <= end
            &&& balanced(tokens_of(ls).subrange(x, q))
            &&& balanced(tokens_of(v))
            &&& lexemes(new) == Ok::<Seq<Lexeme>, Seq<char>>(replaced(ls, x, q, v))
            &&& tokens_of(replaced(ls, x, q, v)) == edited(tokens_of(ls), x, q, tokens_of(v))
            &&& is_indent(indent_of(at))
        }),
{
    let ts = tokens_of(ls);
    let q = past_text(ls, y);
    lemma_text_behind(ls, y);
    assert(q <= end) by {
        if y + 1 == end {
            assert(ls[end].token is End);
        }
    }
    let at = before(xml, ls, x);
    let indent = indent_of(at);
    lemma_indentation(last_line(at));
    let base = open_at(ls, x);
    let block = block_pieces(row, indent);
    let tail = seq!['\n'] + text_behind(ls, y);
    let brk = seq![text_piece(tail)];
    let v = replacement(xml, ls, row, x, y);
    lemma_block(base, row, indent);
    assert(!tail.contains('<')) by {
        if tail.contains('<') {
            let i = choose|i: int| 0 <= i < tail.len() && tail[i] == '<';
            assert(text_behind(ls, y)[i - 1] == '<');
        }
    }
    lemma_whole_text(base, tail);
    assert(block.last().token is End);
    lemma_whole_concat(base, block, brk);
    lemma_source_concat(block, brk);
    lemma_one_child(ts, x, y, q, end, "user"@);
    assert(v[0] == block[0]);
    assert(v[0].token is Start);
    lemma_before(xml, ls, x, y + 1);
    lemma_replaced(xml, ls, x, q, v);
    let stop = before(xml, ls, y + 1);
    let new = spliced(xml, at, stop, user_block(row, indent));
    assert(xml.skip(stop.len() as int) =~= source(ls.skip(y + 1)));
    assert(new =~= at + source(v) + source(ls.skip(q)));
}

/// A user that is replaced is read back in its place, and nothing else is read
/// differently.
pub proof fn replace_user_round_trip(xml: Seq<char>, ls: Seq<Lexeme>, row: Row, k: int)
    requires
        lexemes(xml) == Ok::<Seq<Lexeme>, Seq<char>>(ls),
        xml == bom(xml) + source(ls),
        well_scanned(ls),
        system_range(tokens_of(ls)) is Ok,
        users(tokens_of(ls)) is Ok,
        writable(row),
        0 <= k < system_children(tokens_of(ls), "user"@).len(),
        named_element(tokens_of(ls), 0, "user"@, row.name) == Some(
            system_children(tokens_of(ls), "user"@)[k],
        ),
    ensures
        mutated(xml, Change::ReplaceUser(row)) matches Ok(new) && parsed(new) matches Ok(ts) && {
            &&& users(ts) == Ok::<Seq<Row>, Failure>(users(tokens_of(ls))->Ok_0.update(k, row))
            &&& next_uid_of(ts) == next_uid_of(tokens_of(ls))
            &&& memberships(ts) == memberships(tokens_of(ls))
        },
{
    let ts = tokens_of(ls);
    lemma_child_place(ts, "user"@, k);
    lemma_system(ts);
    let (s, e) = system(ts);
    let rs = system_children(ts, "user"@);
    let (x, y) = rs[k];
    lemma_named_element(ts, 0, "user"@, row.name);
    assert(ls[e].token is End);
    lemma_replace_events(xml, ls, row, x, y, e);
    let q = past_text(ls, y);
    let at = before(xml, ls, x);
    let indent = indent_of(at);
    let block = block_pieces(row, indent);
    let tail = seq!['\n'] + text_behind(ls, y);
    let v = replacement(xml, ls, row, x, y);
    let w = tokens_of(v);
    let us = edited(ts, x, q, w);
    let new = spliced(xml, at, before(xml, ls, y + 1), user_block(row, indent));
    assert(mutated(xml, Change::ReplaceUser(row)) == Ok::<Seq<char>, Failure>(new));
    assert(parsed(new) == Ok::<Seq<Token>, Failure>(us));
    lemma_system_names();
    lemma_one_child(ts, x, y, q, e, "user"@);
    lemma_one_child(ts, x, y, q, e, "group"@);
    lemma_one_child(ts, x, y, q, e, "nextuid"@);
    lemma_block_children(row, indent, tail, "user"@);
    lemma_block_children(row, indent, tail, "group"@);
    lemma_block_children(row, indent, tail, "nextuid"@);
    assert(between(ts, x, q, w));
    lemma_between(ts, x, q, w, "user"@);
    lemma_kept_between(ts, x, q, w, "group"@);
    lemma_kept_between(ts, x, q, w, "nextuid"@);
    lemma_groups_kept(ts, x, q, w);
    lemma_next_uid_kept(ts, x, q, w);
    lemma_replaced_users(ts, x, y, q, row, indent, tail, k);
}

/// The users after one of them has been replaced by a block.
proof fn lemma_replaced_users(
    ts: Seq<Token>,
    x: int,
    y: int,
    q: int,
    row: Row,
    indent: Seq<char>,
    tail: Seq<char>,
    k: int,
)
    requires
        ({
            let w = tokens_of(block_pieces(row, indent) + seq![text_piece(tail)]);
            between(ts, x, q, w)
        }),
        users(ts) is Ok,
        is_indent(indent),
        writable(row),
        x < y,
        0 <= k < system_children(ts, "user"@).len(),
        system_children(ts, "user"@)[k] == (x, y),
        child_ranges(ts, x, q, "user"@) == seq![(x, y)],
    ensures
        ({
            let w = tokens_of(block_pieces(row, indent) + seq![text_piece(tail)]);
            users(edited(ts, x, q, w)) == Ok::<Seq<Row>, Failure>(users(ts)->Ok_0.update(k, row))
        }),
{
    let block = block_pieces(row, indent);
    let brk = seq![text_piece(tail)];
    let w = tokens_of(block + brk);
    let us = edited(ts, x, q, w);
    let (s, e) = system(ts);
    let rs = system_children(ts, "user"@);
    lemma_child_place(ts, "user"@, k);
    lemma_block_children(row, indent, tail, "user"@);
    lemma_between(ts, x, q, w, "user"@);
    let m = block.len() as int - 1;
    let b = w.len() - (q - x);
    let ss = system_children(us, "user"@);
    let a = child_ranges(ts, s + 1, x, "user"@);
    let c = child_ranges(ts, q, e, "user"@);
    assert(rs =~= a + seq![(x, y)] + c);
    assert(ss =~= a + seq![(x, x + m)] + shifted_ranges(c, b));
    lemma_users_rows(ts, rs);
    let rows = users(ts)->Ok_0;
    let bts = tokens_of(block);
    lemma_tokens_concat(block, brk);
    assert forall|j: int| 0 < j < m implies #[trigger] bts[j] == us[j + x] by {
        assert(w[j] == bts[j]);
    }
    lemma_element_shift(bts, us, (0, m), x, "name"@);
    block_round_trip(row, indent);
    assert forall|i: int| 0 <= i < ss.len() implies user_at(us, #[trigger] ss[i]) == Ok::<
        Row,
        Failure,
    >(rows.update(k, row)[i]) by {
        if i != k {
            if i < k {
                assert(rs[i] == a[i]);
            } else {
                assert(rs[i] == c[i - k - 1]);
            }
            lemma_kept_element(ts, x, q, w, rs[i], "name"@);
            assert(ss[i] == moved_range(rs[i], x, b));
        }
    }
    lemma_users_list(us, ss, rows.update(k, row));
}

pub proof fn lemma_first_closed(ts: Seq<Token>, i: int, tag: Seq<char>, depth: int)
    requires
        0 <= i,
    ensures
        first_closed(ts, i, tag, depth) matches Some((x, y)) ==> {
            &&& i <= x < y < ts.len()
            &&& ts[x] == Token::Start(tag)
            &&& depth_at(ts, x) == depth
            &&& close_of(ts, x, ts.len() as int) == Some(y)
        },
    decreases ts.len() - i,
{
    if i < ts.len() {
        lemma_close_from(ts, i + 1, ts.len() as int, 1);
        lemma_first_closed(ts, i + 1, tag, depth);
    }
}

pub proof fn lemma_named_element(ts: Seq<Token>, i: int, tag: Seq<char>, name: Seq<char>)
    requires
        0 <= i,
    ensures
        named_element(ts, i, tag, name) matches Some((x, y)) ==> {
            &&& i <= x < y < ts.len()
            &&& ts[x] == Token::Start(tag)
            &&& depth_at(ts, x) == 2
            &&& close_of(ts, x, ts.len() as int) == Some(y)
        },
    decreases ts.len() - i,
{
    lemma_first_closed(ts, i, tag, 2);
    if let Some((s, e)) = first_closed(ts, i, tag, 2) {
        lemma_named_element(ts, s + 1, tag, name);
    }
}

/// White space is trimmed from the last text only.
proof fn lemma_trim_concat(a: Seq<char>, t: Seq<char>)
    requires
        a.len() > 0,
        !is_blank(a.last()),
    ensures
        trim_blank_end(a + t) == a + trim_blank_end(t),
    decreases t.len(),
{
    let p = |c: char| is_blank(c);
    if t.len() == 0 {
        assert(a + t =~= a);
        assert(a + trim_blank_end(t) =~= a);
    } else {
        assert((a + t).last() == t.last());
        if p(t.last()) {
            assert((a + t).drop_last() =~= a + t.drop_last());
            lemma_trim_concat(a, t.drop_last());
        }
    }
}

/// Text up to a piece of markup ends with it.
proof fn lemma_before_markup(xml: Seq<char>, ls: Seq<Lexeme>, i: int)
    requires
        well_scanned(ls),
        xml == bom(xml) + source(ls),
        0 < i <= ls.len(),
        ls[i - 1].token !is Text,
    ensures
        before(xml, ls, i).len() > 0,
        before(xml, ls, i).last() == '>',
{
    reveal(well_placed);
    assert(well_read(ls[i - 1], open_at(ls, i - 1)));
    lemma_before(xml, ls, i - 1, i);
    assert(ls.subrange(i - 1, i) =~= seq![ls[i - 1]]);
    lemma_source_first(seq![ls[i - 1]]);
    assert(seq![ls[i - 1]].drop_first() =~= Seq::<Lexeme>::empty());
    assert(source(seq![ls[i - 1]]) =~= ls[i - 1].raw);
}

/// The text in front of event `i`, without white space at its end.
pub open spec fn text_ahead(ls: Seq<Lexeme>, i: int) -> Seq<char> {
    if i > 0 && ls[i - 1].token is Text {
        trim_blank_end(ls[i - 1].raw)
    } else {
        Seq::empty()
    }
}

/// The event behind the last one in front of event `i` that is no text.
pub open spec fn ahead_of_text(ls: Seq<Lexeme>, i: int) -> int {
    if i > 0 && ls[i - 1].token is Text {
        i - 1
    } else {
        i
    }
}

proof fn lemma_text_ahead(xml: Seq<char>, ls: Seq<Lexeme>, i: int)
    requires
        well_scanned(ls),
        xml == bom(xml) + source(ls),
        1 < i <= ls.len(),
    ensures
        ({
            let p = ahead_of_text(ls, i);
            &&& 0 < p <= i
            &&& trim_blank_end(before(xml, ls, i)) == before(xml, ls, p) + text_ahead(ls, i)
            &&& ls[p - 1].token !is Text
            &&& !text_ahead(ls, i).contains('<')
        }),
{
    let p = ahead_of_text(ls, i);
    if ls[i - 1].token is Text {
        assert(ls[i - 2].token !is Text && well_read(ls[i - 1], open_at(ls, i - 1))) by {
            reveal(well_placed);
            assert(ls[i - 1].token is Text);
        }
        lemma_before_markup(xml, ls, p);
        lemma_before(xml, ls, p, i);
        assert(ls.subrange(p, i) =~= seq![ls[p]]);
        lemma_source_first(seq![ls[p]]);
        assert(seq![ls[p]].drop_first() =~= Seq::<Lexeme>::empty());
        assert(source(seq![ls[p]]) =~= ls[p].raw);
        lemma_trim_concat(before(xml, ls, p), ls[p].raw);
        lemma_trim_blank_prefix(ls[p].raw);
        let t = trim_blank_end(ls[p].raw);
        assert(!t.contains('<')) by {
            if t.contains('<') {
                let j = choose|j: int| 0 <= j < t.len() && t[j] == '<';
                assert(ls[p].raw[j] == '<');
            }
        }
    } else {
        lemma_before_markup(xml, ls, i);
        assert(before(xml, ls, i) + Seq::<char>::empty() =~= before(xml, ls, i));
    }
}

/// Cutting out an element, the white space in front of it and nothing else.
pub open spec fn cut(ls: Seq<Lexeme>, x: int, y: int) -> Seq<Lexeme> {
    text_pieces(text_ahead(ls, x) + text_behind(ls, y))
}

/// The document without an element is read as the events around it.
pub proof fn lemma_cut(xml: Seq<char>, ls: Seq<Lexeme>, x: int, y: int, end: int)
    requires
        well_scanned(ls),
        xml == bom(xml) + source(ls),
        1 < x < y < end <= ls.len(),
        tokens_of(ls)[x] is Start,
        close_of(tokens_of(ls), x, end) == Some(y),
        end == ls.len() || ls[end].token is End,
    ensures
        ({
            let p = ahead_of_text(ls, x);
            let q = past_text(ls, y);
            let v = cut(ls, x, y);
            let ts = tokens_of(ls);
            let new = trim_blank_end(before(xml, ls, x)) + xml.skip(
                before(xml, ls, y + 1).len() as int,
            );
            let next = replaced(ls, p, q, v);
            &&& 0 < p <= x < y < q <= end
            &&& balanced(ts.subrange(p, q))
            &&& balanced(tokens_of(v))
            &&& forall|name: Seq<char>|
                #![trigger child_ranges(tokens_of(v), 0, tokens_of(v).len() as int, name)]
                child_ranges(tokens_of(v), 0, tokens_of(v).len() as int, name).len() == 0
            &&& forall|name: Seq<char>|
                #![trigger child_ranges(ts, p, q, name)]
                child_ranges(ts, p, q, name) == if ts[x] == Token::Start(name) {
                    seq![(x, y)]
                } else {
                    Seq::empty()
                }
            &&& new == bom(new) + source(next)
            &&& bom(new) == bom(xml)
            &&& well_scanned(next)
            &&& lexemes(new) == Ok::<Seq<Lexeme>, Seq<char>>(next)
            &&& tokens_of(next) == edited(ts, p, q, tokens_of(v))
        }),
{
    let p = ahead_of_text(ls, x);
    let q = past_text(ls, y);
    let t = text_ahead(ls, x) + text_behind(ls, y);
    let v = cut(ls, x, y);
    let ts = tokens_of(ls);
    lemma_text_ahead(xml, ls, x);
    lemma_text_behind(ls, y);
    assert(q <= end) by {
        if y + 1 == end && end < ls.len() {
            assert(ls[end].token is End);
        }
    }
    lemma_before(xml, ls, x, y + 1);
    let new = trim_blank_end(before(xml, ls, x)) + xml.skip(before(xml, ls, y + 1).len() as int);
    assert(xml.skip(before(xml, ls, y + 1).len() as int) =~= source(ls.skip(y + 1)));
    let base = open_at(ls, p);
    assert(!t.contains('<')) by {
        if t.contains('<') {
            let i = choose|i: int| 0 <= i < t.len() && t[i] == '<';
            if i < text_ahead(ls, x).len() {
                assert(text_ahead(ls, x)[i] == '<');
            } else {
                assert(text_behind(ls, y)[i - text_ahead(ls, x).len()] == '<');
            }
        }
    }
    if t.len() == 0 {
        lemma_whole_empty(base);
        assert(source(v) =~= t);
    } else {
        lemma_whole_text(base, t);
    }
    assert(source(v) == t);
    assert forall|name: Seq<char>|
        #![trigger child_ranges(ts, p, q, name)]
        child_ranges(ts, p, q, name) == if ts[x] == Token::Start(name) {
            seq![(x, y)]
        } else {
            Seq::empty()
        } by {
        lemma_one_child(ts, x, y, q, end, name);
        if p < x {
            assert(ts[p] is Text);
            reveal_with_fuel(child_ranges, 2);
        }
    }
    lemma_one_child(ts, x, y, q, end, Seq::empty());
    if p < x {
        assert(ts[p] is Text);
        lemma_balanced(ts, x, q);
        assert(depth_at(ts, x) == depth_at(ts, p));
        lemma_balanced(ts, p, q);
        assert forall|m: int| p <= m <= q implies #[trigger] depth_at(ts, m) >= depth_at(ts, p) by {
            if m > p {
                assert(x <= m);
            }
        }
    }
    assert(apart(ls, p, q, v));
    lemma_replaced(xml, ls, p, q, v);
    assert(new =~= before(xml, ls, p) + source(v) + source(ls.skip(q)));
    assert forall|name: Seq<char>|
        #![trigger child_ranges(tokens_of(v), 0, tokens_of(v).len() as int, name)]
        child_ranges(tokens_of(v), 0, tokens_of(v).len() as int, name).len() == 0 by {
        reveal_with_fuel(child_ranges, 2);
        if v.len() > 0 {
            assert(tokens_of(v)[0] == Token::Text(t));
        }
    }
}

/// A user that is removed is not read any more, and nothing else is read
/// differently.
#[verifier::rlimit(50)]
pub proof fn remove_user_round_trip(xml: Seq<char>, ls: Seq<Lexeme>, name: Seq<char>, k: int)
    requires
        lexemes(xml) == Ok::<Seq<Lexeme>, Seq<char>>(ls),
        xml == bom(xml) + source(ls),
        well_scanned(ls),
        system_range(tokens_of(ls)) is Ok,
        users(tokens_of(ls)) is Ok,
        0 <= k < system_children(tokens_of(ls), "user"@).len(),
        named_element(tokens_of(ls), 0, "user"@, name) == Some(
            system_children(tokens_of(ls), "user"@)[k],
        ),
    ensures
        mutated(xml, Change::RemoveUser(name)) matches Ok(new) && parsed(new) matches Ok(ts) && {
            &&& users(ts) == Ok::<Seq<Row>, Failure>(users(tokens_of(ls))->Ok_0.remove(k))
            &&& next_uid_of(ts) == next_uid_of(tokens_of(ls))
            &&& memberships(ts) == memberships(tokens_of(ls))
        },
{
    let ts = tokens_of(ls);
    lemma_child_place(ts, "user"@, k);
    let (s, e) = system(ts);
    let rs = system_children(ts, "user"@);
    let (x, y) = rs[k];
    lemma_named_element(ts, 0, "user"@, name);
    lemma_system(ts);
    assert(ls[e].token is End);
    lemma_cut(xml, ls, x, y, e);
    let p = ahead_of_text(ls, x);
    let q = past_text(ls, y);
    let v = cut(ls, x, y);
    let w = tokens_of(v);
    let us = edited(ts, p, q, w);
    let kept = trim_blank_end(before(xml, ls, x));
    let new = spliced(xml, kept, before(xml, ls, y + 1), Seq::empty());
    assert(new =~= kept + xml.skip(before(xml, ls, y + 1).len() as int));
    assert(mutated(xml, Change::RemoveUser(name)) == Ok::<Seq<char>, Failure>(new));
    assert(parsed(new) == Ok::<Seq<Token>, Failure>(us));
    lemma_system_names();
    assert(s < p) by {
        if p == s {
            assert(ls[x - 1].token is Text);
            assert(ts[s] is Start);
        }
    }
    assert(balanced(ts.subrange(s + 1, p))) by {
        lemma_balanced(ts, s + 1, x);
        lemma_balanced(ts, s + 1, p);
        if p < x {
            assert(ts[p] is Text);
            assert(depth_at(ts, x) == depth_at(ts, p));
        }
    }
    assert(between(ts, p, q, w));
    assert(child_ranges(ts, p, q, "user"@) == seq![(x, y)]);
    assert(child_ranges(w, 0, w.len() as int, "user"@).len() == 0);
    assert(next_uid_of(us) == next_uid_of(ts) && memberships(us) == memberships(ts)) by {
        lemma_kept_between(ts, p, q, w, "group"@);
        lemma_kept_between(ts, p, q, w, "nextuid"@);
        lemma_between(ts, p, q, w, "user"@);
        lemma_groups_kept(ts, p, q, w);
        lemma_next_uid_kept(ts, p, q, w);
    }
    lemma_removed_users(ts, p, q, w, k);
}

/// The users after one of them has been cut out.
proof fn lemma_removed_users(ts: Seq<Token>, p: int, q: int, w: Seq<Token>, k: int)
    requires
        between(ts, p, q, w),
        users(ts) is Ok,
        0 <= k < system_children(ts, "user"@).len(),
        child_ranges(ts, p, q, "user"@) == seq![system_children(ts, "user"@)[k]],
        child_ranges(w, 0, w.len() as int, "user"@).len() == 0,
    ensures
        users(edited(ts, p, q, w)) == Ok::<Seq<Row>, Failure>(users(ts)->Ok_0.remove(k)),
{
    let us = edited(ts, p, q, w);
    let (s, e) = system(ts);
    let rs = system_children(ts, "user"@);
    let (x, y) = rs[k];
    lemma_between(ts, p, q, w, "user"@);
    lemma_children(ts, p, q, "user"@, 0);
    assert(p <= x <= y < q);
    let b = w.len() - (q - p);
    let ss = system_children(us, "user"@);
    let a = child_ranges(ts, s + 1, p, "user"@);
    let c = child_ranges(ts, q, e, "user"@);
    assert(rs =~= a + seq![(x, y)] + c);
    assert(a.len() == k) by {
        if a.len() > k {
            assert(rs[k] == a[k]);
        } else if a.len() < k {
            assert(rs[k] == c[k - a.len() - 1]);
        }
    }
    assert(ss =~= a + shifted_ranges(c, b));
    lemma_users_rows(ts, rs);
    let rows = users(ts)->Ok_0;
    assert forall|i: int| 0 <= i < ss.len() implies user_at(us, #[trigger] ss[i]) == Ok::<
        Row,
        Failure,
    >(rows.remove(k)[i]) by {
        let j = if i < k {
            i
        } else {
            i + 1
        };
        if i < k {
            assert(rs[j] == a[i]);
        } else {
            assert(rs[j] == c[i - k]);
        }
        lemma_kept_element(ts, p, q, w, rs[j], "name"@);
        assert(ss[i] == moved_range(rs[j], p, b));
    }
    lemma_users_list(us, ss, rows.remove(k));
}

// ---------- Appending a user ----------

/// The events of a user that is appended.
pub open spec fn appended(xml: Seq<char>, ls: Seq<Lexeme>, row: Row) -> Seq<Lexeme> {
    block_pieces(row, user_indent(xml, ls)) + seq![text_piece(seq!['\n'])]
}

/// The document with a user appended is read as the events around it and those
/// of the new block.
pub proof fn lemma_append_events(xml: Seq<char>, ls: Seq<Lexeme>, row: Row, e: int)
    requires
        well_scanned(ls),
        xml == bom(xml) + source(ls),
        0 < e < ls.len(),
        ls[e].token is End,
    ensures
        ({
            let v = appended(xml, ls, row);
            let at = before(xml, ls, e);
            let new = spliced(xml, at, at, user_block(row, user_indent(xml, ls)));
            &&& balanced(tokens_of(ls).subrange(e, e))
            &&& balanced(tokens_of(v))
            &&& lexemes(new) == Ok::<Seq<Lexeme>, Seq<char>>(replaced(ls, e, e, v))
            &&& tokens_of(replaced(ls, e, e, v)) == edited(tokens_of(ls), e, e, tokens_of(v))
        }),
{
    let ts = tokens_of(ls);
    let indent = user_indent(xml, ls);
    lemma_user_indent(xml, ls);
    let base = open_at(ls, e);
    let block = block_pieces(row, indent);
    let brk = seq![text_piece(seq!['\n'])];
    let v = appended(xml, ls, row);
    lemma_block(base, row, indent);
    assert(!seq!['\n'].contains('<'));
    lemma_whole_text(base, seq!['\n']);
    assert(block.last().token is End);
    lemma_whole_concat(base, block, brk);
    lemma_source_concat(block, brk);
    assert(source(v) == user_block(row, indent));
    lemma_balanced(ts, e, e);
    assert(v[0] == block[0]);
    assert(v[0].token is Start);
    lemma_before(xml, ls, e, ls.len() as int);
    lemma_replaced(xml, ls, e, e, v);
    let at = before(xml, ls, e);
    lemma_before(xml, ls, e, e);
    assert(xml.skip(at.len() as int) =~= source(ls.skip(e)));
}

/// The users after one has been appended.
proof fn lemma_appended_users(
    ts: Seq<Token>,
    row: Row,
    indent: Seq<char>,
    tail: Seq<char>,
)
    requires
        ({
            let w = tokens_of(block_pieces(row, indent) + seq![text_piece(tail)]);
            between(ts, system(ts).1, system(ts).1, w)
        }),
        users(ts) is Ok,
        is_indent(indent),
        writable(row),
    ensures
        ({
            let w = tokens_of(block_pieces(row, indent) + seq![text_piece(tail)]);
            let e = system(ts).1;
            users(edited(ts, e, e, w)) == Ok::<Seq<Row>, Failure>(users(ts)->Ok_0.push(row))
        }),
{
    let block = block_pieces(row, indent);
    let brk = seq![text_piece(tail)];
    let w = tokens_of(block + brk);
    let (s, e) = system(ts);
    let us = edited(ts, e, e, w);
    let rs = system_children(ts, "user"@);
    lemma_block_children(row, indent, tail, "user"@);
    lemma_between(ts, e, e, w, "user"@);
    let m = block.len() as int - 1;
    let ss = system_children(us, "user"@);
    assert(child_ranges(ts, e, e, "user"@) =~= Seq::<(int, int)>::empty());
    assert(ss =~= rs.push((e, e + m)));
    lemma_users_rows(ts, rs);
    let rows = users(ts)->Ok_0;
    let bts = tokens_of(block);
    lemma_tokens_concat(block, brk);
    assert forall|j: int| 0 < j < m implies #[trigger] bts[j] == us[j + e] by {
        assert(w[j] == bts[j]);
    }
    lemma_element_shift(bts, us, (0, m), e, "name"@);
    block_round_trip(row, indent);
    assert forall|i: int| 0 <= i < ss.len() implies user_at(us, #[trigger] ss[i]) == Ok::<
        Row,
        Failure,
    >(rows.push(row)[i]) by {
        if i < rs.len() {
            assert(ss[i] == rs[i]);
            lemma_children(ts, s + 1, e, "user"@, i);
            lemma_kept_element(ts, e, e, w, rs[i], "name"@);
        }
    }
    lemma_users_list(us, ss, rows.push(row));
}

/// A user that is appended is read back behind the others, and nothing else is
/// read differently.
pub proof fn append_user_round_trip(xml: Seq<char>, ls: Seq<Lexeme>, row: Row)
    requires
        lexemes(xml) == Ok::<Seq<Lexeme>, Seq<char>>(ls),
        xml == bom(xml) + source(ls),
        well_scanned(ls),
        regular(tokens_of(ls)),
        users(tokens_of(ls)) is Ok,
        writable(row),
    ensures
        mutated(xml, Change::AppendUser(row)) matches Ok(new) && parsed(new) matches Ok(ts) && {
            &&& users(ts) == Ok::<Seq<Row>, Failure>(users(tokens_of(ls))->Ok_0.push(row))
            &&& next_uid_of(ts) == next_uid_of(tokens_of(ls))
            &&& memberships(ts) == memberships(tokens_of(ls))
        },
{
    let ts = tokens_of(ls);
    lemma_system(ts);
    let (s, e) = system(ts);
    assert(ls[e].token is End);
    lemma_append_events(xml, ls, row, e);
    let indent = user_indent(xml, ls);
    lemma_user_indent(xml, ls);
    let v = appended(xml, ls, row);
    let w = tokens_of(v);
    let us = edited(ts, e, e, w);
    let at = before(xml, ls, e);
    let new = spliced(xml, at, at, user_block(row, indent));
    assert(mutated(xml, Change::AppendUser(row)) == Ok::<Seq<char>, Failure>(new));
    assert(parsed(new) == Ok::<Seq<Token>, Failure>(us));
    lemma_system_names();
    lemma_block_children(row, indent, seq!['\n'], "group"@);
    lemma_block_children(row, indent, seq!['\n'], "nextuid"@);
    assert(between(ts, e, e, w));
    lemma_between(ts, e, e, w, "user"@);
    lemma_kept_between(ts, e, e, w, "group"@);
    lemma_kept_between(ts, e, e, w, "nextuid"@);
    lemma_groups_kept(ts, e, e, w);
    lemma_next_uid_kept(ts, e, e, w);
    lemma_appended_users(ts, row, indent, seq!['\n']);
}

// ---------- Adding a group member ----------

/// The text in front of event `i`, where the event in front of it is text.
pub open spec fn text_in_front(ls: Seq<Lexeme>, i: int) -> Seq<char> {
    if i > 0 && ls[i - 1].token is Text {
        ls[i - 1].raw
    } else {
        Seq::empty()
    }
}

/// The events of a member, in place of the text in front of the end tag of its
/// group.
pub open spec fn member_pieces(front: Seq<char>, indent: Seq<char>, uid: u32) -> Seq<Lexeme> {
    seq![text_piece(front + indent + "\t"@)] + enclosed(
        "member"@,
        seq![text_piece(decimal(uid as nat))],
    ) + seq![text_piece(seq!['\n'] + indent)]
}

proof fn lemma_member_pieces(
    base: Seq<Seq<char>>,
    front: Seq<char>,
    indent: Seq<char>,
    uid: u32,
)
    requires
        is_indent(indent),
        !front.contains('<'),
    ensures
        whole(base, member_pieces(front, indent, uid)),
        source(member_pieces(front, indent, uid)) == front + member_line(uid, indent),
{
    reveal_strlit("\t");
    reveal_strlit("member");
    reveal_strlit("<member>");
    reveal_strlit("</member>\n");
    let a = front + indent + "\t"@;
    let number = decimal(uid as nat);
    let last = seq!['\n'] + indent;
    assert(!a.contains('<')) by {
        if a.contains('<') {
            let i = choose|i: int| 0 <= i < a.len() && a[i] == '<';
            if i < front.len() {
                assert(front[i] == '<');
            } else if i < front.len() + indent.len() {
                assert(indent[i - front.len()] == '<');
            }
        }
    }
    assert(!last.contains('<')) by {
        if last.contains('<') {
            let i = choose|i: int| 0 <= i < last.len() && last[i] == '<';
            assert(indent[i - 1] == '<');
        }
    }
    decimal_is_digits(uid as nat);
    lemma_digits_plain(number);
    let one = seq![text_piece(a)];
    let elem = enclosed("member"@, seq![text_piece(number)]);
    let two = seq![text_piece(last)];
    lemma_whole_text(base, a);
    lemma_whole_text(base.push("member"@), number);
    assert(is_name("member"@));
    lemma_whole_enclosed(base, "member"@, seq![text_piece(number)]);
    lemma_whole_text(base, last);
    assert(elem[0].token is Start);
    assert(elem.last().token is End);
    lemma_whole_concat(base, one, elem);
    assert((one + elem).last() == elem.last());
    lemma_whole_concat(base, one + elem, two);
    lemma_source_concat(one, elem);
    lemma_source_concat(one + elem, two);
    assert(source(member_pieces(front, indent, uid)) =~= front + member_line(uid, indent));
}

/// The only element among the events of a member.
pub proof fn lemma_member_children(front: Seq<char>, indent: Seq<char>, uid: u32, name: Seq<char>)
    ensures
        ({
            let w = tokens_of(member_pieces(front, indent, uid));
            &&& child_ranges(w, 0, w.len() as int, name) == if name == "member"@ {
                seq![(1int, 3int)]
            } else {
                Seq::empty()
            }
            &&& element_text(w, (1, 3)) == decimal(uid as nat)
        }),
{
    let v = member_pieces(front, indent, uid);
    let w = tokens_of(v);
    assert(v.len() == 5);
    assert(w[0] is Text);
    assert(w[1] == Token::Start("member"@));
    assert(w[2] == Token::Text(decimal(uid as nat)));
    assert(w[3] == Token::End("member"@));
    assert(w[4] is Text);
    reveal_with_fuel(child_ranges, 4);
    reveal_with_fuel(close_from, 4);
    reveal_with_fuel(text_between, 3);
    decimal_is_digits(uid as nat);
    lemma_digits_plain(decimal(uid as nat));
    assert(child_ranges(w, 4, 5, name) =~= Seq::<(int, int)>::empty());
    assert(close_of(w, 1, 5) == Some(3int));
    assert(child_ranges(w, 0, 5, name) =~= if name == "member"@ {
        seq![(1int, 3int)]
    } else {
        Seq::empty()
    });
    assert(element_text(w, (1, 3)) =~= decimal(uid as nat));
}

/// The document with a member added is read as the events around it and those
/// of the member.
pub proof fn lemma_member_events(xml: Seq<char>, ls: Seq<Lexeme>, uid: u32, e: int)
    requires
        well_scanned(ls),
        xml == bom(xml) + source(ls),
        1 < e < ls.len(),
        ls[e].token is End,
    ensures
        ({
            let p = ahead_of_text(ls, e);
            let at = before(xml, ls, e);
            let indent = indent_of(at);
            let v = member_pieces(text_in_front(ls, e), indent, uid);
            let new = spliced(xml, at, at, member_line(uid, indent));
            &&& 0 < p <= e
            &&& balanced(tokens_of(ls).subrange(p, e))
            &&& balanced(tokens_of(v))
            &&& lexemes(new) == Ok::<Seq<Lexeme>, Seq<char>>(replaced(ls, p, e, v))
            &&& tokens_of(replaced(ls, p, e, v)) == edited(tokens_of(ls), p, e, tokens_of(v))
        }),
{
    let ts = tokens_of(ls);
    let p = ahead_of_text(ls, e);
    let at = before(xml, ls, e);
    let indent = indent_of(at);
    let front = text_in_front(ls, e);
    let v = member_pieces(front, indent, uid);
    lemma_indentation(last_line(at));
    lemma_text_ahead(xml, ls, e);
    assert(!front.contains('<')) by {
        reveal(well_placed);
        assert(well_read(ls[e - 1], open_at(ls, e - 1)));
    }
    lemma_member_pieces(open_at(ls, p), front, indent, uid);
    lemma_balanced(ts, p, e);
    if p < e {
        assert(ts[p] is Text);
        assert(depth_at(ts, e) == depth_at(ts, p));
    }
    assert(v.last() == text_piece(seq!['\n'] + indent));
    lemma_before(xml, ls, p, e);
    lemma_replaced(xml, ls, p, e, v);
    let new = spliced(xml, at, at, member_line(uid, indent));
    assert(xml.skip(at.len() as int) =~= source(ls.skip(e)));
    assert(at =~= before(xml, ls, p) + front) by {
        if p < e {
            assert(ls.subrange(p, e) =~= seq![ls[p]]);
            lemma_source_first(seq![ls[p]]);
            assert(seq![ls[p]].drop_first() =~= Seq::<Lexeme>::empty());
            assert(source(seq![ls[p]]) =~= ls[p].raw);
        } else {
            assert(ls.subrange(p, e) =~= Seq::<Lexeme>::empty());
        }
    }
    assert(new =~= before(xml, ls, p) + source(v) + source(ls.skip(e)));
}

/// The memberships that the groups at `ranges` make, with the members of group
/// `k` replaced.
proof fn lemma_memberships_replaced(
    ts: Seq<Token>,
    us: Seq<Token>,
    rs: Seq<(int, int)>,
    ss: Seq<(int, int)>,
    k: int,
    group: Seq<char>,
    added: Seq<char>,
    uid: u32,
)
    requires
        rs.len() == ss.len(),
        0 <= k < rs.len(),
        forall|i: int|
            0 <= i < rs.len() && i != k ==> {
                &&& child_text(us, ss[i], "name"@) == child_text(ts, #[trigger] rs[i], "name"@)
                &&& child_texts(us, ss[i], "member"@) == child_texts(ts, rs[i], "member"@)
            },
        child_text(ts, rs[k], "name"@) == Some(group),
        child_text(us, ss[k], "name"@) == Some(group),
        child_texts(us, ss[k], "member"@) == child_texts(ts, rs[k], "member"@).push(added),
        parsed_number(added, u32::MAX as nat) == Some(uid as nat),
    ensures
        exists|i: int|
            0 <= i <= memberships_at(ts, rs).len() && memberships_at(us, ss) == #[trigger] memberships_at(
                ts,
                rs,
            ).insert(i, (uid, group)),
    decreases rs.len(),
{
    let r = rs.drop_last();
    let t = ss.drop_last();
    let last = rs.len() - 1;
    assert forall|i: int| 0 <= i < r.len() && i != k implies {
        &&& child_text(us, t[i], "name"@) == child_text(ts, #[trigger] r[i], "name"@)
        &&& child_texts(us, t[i], "member"@) == child_texts(ts, r[i], "member"@)
    } by {
        assert(r[i] == rs[i]);
    }
    let old_last = memberships_in(
        or_empty(child_text(ts, rs.last(), "name"@)),
        child_texts(ts, rs.last(), "member"@),
    );
    if k == last {
        lemma_memberships_agree(ts, us, r, t);
        let members = child_texts(ts, rs.last(), "member"@);
        assert(members.push(added).drop_last() =~= members);
        let i = memberships_at(ts, rs).len() as int;
        assert(memberships_at(us, ss) =~= memberships_at(ts, rs).insert(i, (uid, group)));
    } else {
        lemma_memberships_replaced(ts, us, r, t, k, group, added, uid);
        let i = choose|i: int|
            0 <= i <= memberships_at(ts, r).len() && memberships_at(us, t)
                == #[trigger] memberships_at(ts, r).insert(i, (uid, group));
        assert(rs[last] == rs.last());
        assert(memberships_at(us, ss) =~= memberships_at(ts, rs).insert(i, (uid, group)));
    }
}

/// A member that is added is read back as a membership in the group, and nothing
/// else is read differently.
pub proof fn add_group_member_round_trip(
    xml: Seq<char>,
    ls: Seq<Lexeme>,
    group: Seq<char>,
    uid: u32,
    k: int,
)
    requires
        lexemes(xml) == Ok::<Seq<Lexeme>, Seq<char>>(ls),
        xml == bom(xml) + source(ls),
        well_scanned(ls),
        system_range(tokens_of(ls)) is Ok,
        0 <= k < system_children(tokens_of(ls), "group"@).len(),
        named_element(tokens_of(ls), 0, "group"@, group) == Some(
            system_children(tokens_of(ls), "group"@)[k],
        ),
        child_text(tokens_of(ls), system_children(tokens_of(ls), "group"@)[k], "name"@) == Some(
            group,
        ),
    ensures
        mutated(xml, Change::AddGroupMember(group, uid)) matches Ok(new) && parsed(
            new,
        ) matches Ok(ts) && {
            &&& memberships(ts) matches Ok(list) && exists|i: int|
                0 <= i <= memberships(tokens_of(ls))->Ok_0.len() && list
                    == #[trigger] memberships(tokens_of(ls))->Ok_0.insert(i, (uid, group))
            &&& users(ts) == users(tokens_of(ls))
            &&& next_uid_of(ts) == next_uid_of(tokens_of(ls))
        },
{
    let ts = tokens_of(ls);
    lemma_child_place(ts, "group"@, k);
    let rs = system_children(ts, "group"@);
    let (x, e) = rs[k];
    lemma_named_element(ts, 0, "group"@, group);
    assert(ls[e].token is End);
    lemma_member_events(xml, ls, uid, e);
    let p = ahead_of_text(ls, e);
    let at = before(xml, ls, e);
    let indent = indent_of(at);
    let front = text_in_front(ls, e);
    let v = member_pieces(front, indent, uid);
    let w = tokens_of(v);
    let us = edited(ts, p, e, w);
    let b = w.len() - (e - p);
    let new = spliced(xml, at, at, member_line(uid, indent));
    assert(mutated(xml, Change::AddGroupMember(group, uid)) == Ok::<Seq<char>, Failure>(new));
    assert(parsed(new) == Ok::<Seq<Token>, Failure>(us));
    assert(x < p) by {
        if p == x {
            assert(ls[e - 1].token is Text);
            assert(ts[x] is Start);
        }
    }
    lemma_system_names();
    assert(inside(ts, p, e, w, "group"@, k));
    lemma_inside(ts, p, e, w, "group"@, k, "user"@);
    lemma_inside(ts, p, e, w, "group"@, k, "nextuid"@);
    lemma_inside(ts, p, e, w, "group"@, k, "group"@);
    lemma_users_kept(ts, p, e, w);
    lemma_next_uid_kept(ts, p, e, w);
    let ss = system_children(us, "group"@);
    assert(ss[k] == (x, e + b));
    lemma_group_edit(ts, p, e, w, x, front, indent, uid);
    assert forall|i: int| 0 <= i < rs.len() && i != k implies {
        &&& child_text(us, ss[i], "name"@) == child_text(ts, #[trigger] rs[i], "name"@)
        &&& child_texts(us, ss[i], "member"@) == child_texts(ts, rs[i], "member"@)
    } by {
        lemma_system(ts);
        lemma_children(ts, system(ts).0 + 1, system(ts).1, "group"@, i);
        lemma_kept_element(ts, p, e, w, rs[i], "name"@);
        lemma_kept_element(ts, p, e, w, rs[i], "member"@);
        assert(ss[i] == moved_range(rs[i], p, b));
    }
    decimal_round_trip(uid as nat, u32::MAX as nat);
    lemma_memberships_replaced(ts, us, rs, ss, k, group, decimal(uid as nat), uid);
    let old_list = memberships_at(ts, rs);
    assert(memberships(ts) == Ok::<Seq<(u32, Seq<char>)>, Failure>(old_list));
    assert(memberships(us) == Ok::<Seq<(u32, Seq<char>)>, Failure>(memberships_at(us, ss)));
    let i = choose|i: int|
        0 <= i <= old_list.len() && memberships_at(us, ss) == #[trigger] old_list.insert(
            i,
            (uid, group),
        );
    assert(memberships(us)->Ok_0 == memberships(ts)->Ok_0.insert(i, (uid, group)));
}

/// A group after a member has been added at its end.
pub proof fn lemma_group_edit(
    ts: Seq<Token>,
    p: int,
    e: int,
    w: Seq<Token>,
    x: int,
    front: Seq<char>,
    indent: Seq<char>,
    uid: u32,
)
    requires
        0 <= x < p <= e < ts.len(),
        ts[x] is Start,
        close_of(ts, x, ts.len() as int) == Some(e),
        w == tokens_of(member_pieces(front, indent, uid)),
        balanced(w),
        balanced(ts.subrange(p, e)),
        p == e || (p + 1 == e && ts[p] is Text),
    ensures
        ({
            let us = edited(ts, p, e, w);
            let b = w.len() - (e - p);
            &&& child_text(us, (x, e + b), "name"@) == child_text(ts, (x, e), "name"@)
            &&& child_texts(us, (x, e + b), "member"@) == child_texts(ts, (x, e), "member"@).push(
                decimal(uid as nat),
            )
        }),
{
    let us = edited(ts, p, e, w);
    let b = w.len() - (e - p);
    lemma_inner_balanced(ts, x, e, ts.len() as int);
    assert(balanced(ts.subrange(x + 1, p))) by {
        lemma_balanced(ts, x + 1, e);
        lemma_balanced(ts, x + 1, p);
        if p < e {
            assert(depth_at(ts, e) == depth_at(ts, p));
        }
    }
    lemma_children_replaced(ts, p, e, w, x + 1, e, "name"@);
    lemma_children_replaced(ts, p, e, w, x + 1, e, "member"@);
    lemma_member_children(front, indent, uid, "name"@);
    lemma_member_children(front, indent, uid, "member"@);
    reveal_strlit("name");
    reveal_strlit("member");
    assert("name"@ != "member"@) by {
        assert("name"@.len() == 4 && "member"@.len() == 6);
    }
    reveal_with_fuel(child_ranges, 2);
    assert(child_ranges(ts, p, e, "name"@).len() == 0);
    assert(child_ranges(ts, p, e, "member"@).len() == 0);
    assert(child_ranges(ts, e, e, "name"@).len() == 0);
    assert(child_ranges(ts, e, e, "member"@).len() == 0);
    let names = child_ranges(ts, x + 1, p, "name"@);
    let members = child_ranges(ts, x + 1, p, "member"@);
    assert(child_ranges(ts, x + 1, e, "name"@) =~= names);
    assert(child_ranges(us, x + 1, e + b, "name"@) =~= names);
    assert(child_ranges(ts, x + 1, e, "member"@) =~= members);
    assert(child_ranges(us, x + 1, e + b, "member"@) =~= members.push((p + 1, p + 3)));
    assert forall|i: int| 0 <= i < names.len() implies element_text(us, #[trigger] names[i])
        == element_text(ts, names[i]) by {
        lemma_children(ts, x + 1, p, "name"@, i);
        lemma_kept_element(ts, p, e, w, names[i], "name"@);
    }
    assert forall|i: int| 0 <= i < members.len() implies element_text(us, #[trigger] members[i])
        == element_text(ts, members[i]) by {
        lemma_children(ts, x + 1, p, "member"@, i);
        lemma_kept_element(ts, p, e, w, members[i], "name"@);
    }
    assert(same_events(w, us, 2, 3, p)) by {
        assert(w[2] == us[p + 2]);
    }
    lemma_text_shift(w, us, 2, 3, p);
    assert(child_texts(us, (x, e + b), "member"@) =~= child_texts(ts, (x, e), "member"@).push(
        decimal(uid as nat),
    ));
}

} // verus!
