//! What a change leaves in place for the changes that follow it.

use crate::edit::{
    balanced, edited, lemma_balanced, lemma_balanced_rest, lemma_children_concat,
    lemma_clear_or_around, lemma_close_inside, lemma_close_moved, lemma_close_shift,
    lemma_depth_agree, lemma_depth_part, lemma_inner_balanced, moved, same_events,
};
use crate::numbers::{decimal, decimal_is_digits};
use crate::pfusers::document::system_range;
use crate::pfusers::errors::Failure;
use crate::pfusers::membership::{
    all_beside, covers, cut_events, cut_last, holds_uid, is_member, is_uid, lemma_cut_step,
    lemma_found, lemma_found_removable, lemma_member_moved, lemma_takes_out, members_of, removable,
};
use crate::pfusers::mutation::{
    first_closed, first_named, indent_of, lemma_before, member_line, member_ranges, mutated,
    named_element, positions, spliced, started_child_text, stripped, tokens_of, trim_blank_end,
    user_indent, Change,
};
use crate::pfusers::outcomes::{
    all_fit, fit_all, fits, is_group_at, is_user_at, reads_back_all, scanned, spares_next_uid,
};
use crate::pfusers::pieces::{
    block_pieces, element_pieces, lemma_whole_text, line_pieces, lines_pieces, text_pieces,
};
use crate::pfusers::round_trip::{
    ahead_of_text, appended, between, clear_of, cut, inside, lemma_append_events,
    lemma_block_children, lemma_child_place, lemma_close_wider, lemma_cut, lemma_digits_plain,
    lemma_first_closed, lemma_first_named, lemma_group_edit, lemma_inside, lemma_kept_between,
    lemma_kept_element, lemma_member_children, lemma_member_events, lemma_named_element,
    lemma_one_child, lemma_replace_events, lemma_replaced, lemma_system, lemma_system_depth,
    lemma_system_edit, lemma_system_names, lemma_user_indent, member_pieces, moved_range, past_text,
    regular, replaced, replacement, system, system_children, text_behind, text_in_front,
};
use crate::pfusers::rows::{escaped, priv_fields, user_block, user_fields, Field, Row};
use crate::pfusers::taken::{
    beside_next_uid, lemma_around, lemma_taken_children, lemma_taken_names, takes_out,
};
use crate::text::trimmed;
use crate::tree::{
    child_ranges, child_text, close_of, depth_at, element_text, lemma_close_depth, lemma_close_from,
};
use crate::xml::{before, bom, lexemes, open_at, source, text_piece, well_scanned, Lexeme, Token};
use vstd::prelude::*;

verus! {

// ---------- Elements that are looked for by name ----------

/// An element `tag` inside two others, which is closed and whose `<name>` holds
/// `name`, starts at event `j`.
pub open spec fn is_hit(ts: Seq<Token>, j: int, tag: Seq<char>, name: Seq<char>) -> bool {
    &&& ts[j] == Token::Start(tag)
    &&& depth_at(ts, j) == 2
    &&& close_of(ts, j, ts.len() as int) matches Some(y) && started_child_text(
        ts,
        j + 1,
        y,
        "name"@,
    ) == Some(name)
}

proof fn lemma_first_closed_first(ts: Seq<Token>, i: int, tag: Seq<char>, depth: int, j: int)
    requires
        0 <= i <= j < ts.len(),
        ts[j] == Token::Start(tag),
        depth_at(ts, j) == depth,
        close_of(ts, j, ts.len() as int) is Some,
    ensures
        first_closed(ts, i, tag, depth) matches Some((x, _)) && x <= j,
    decreases ts.len() - i,
{
    if i < j {
        lemma_first_closed_first(ts, i + 1, tag, depth, j);
    }
}

/// The element that is found is the first one that is looked for.
proof fn lemma_named_first(ts: Seq<Token>, i: int, tag: Seq<char>, name: Seq<char>)
    requires
        0 <= i,
    ensures
        match named_element(ts, i, tag, name) {
            Some((x, y)) => i <= x < ts.len() && is_hit(ts, x, tag, name) && close_of(
                ts,
                x,
                ts.len() as int,
            ) == Some(y) && forall|j: int| i <= j < x ==> !#[trigger] is_hit(ts, j, tag, name),
            None => forall|j: int| i <= j < ts.len() ==> !#[trigger] is_hit(ts, j, tag, name),
        },
    decreases ts.len() - i,
{
    lemma_first_closed(ts, i, tag, 2);
    let found = named_element(ts, i, tag, name);
    match first_closed(ts, i, tag, 2) {
        None => {
            assert forall|j: int| i <= j < ts.len() implies !#[trigger] is_hit(
                ts,
                j,
                tag,
                name,
            ) by {
                if is_hit(ts, j, tag, name) {
                    lemma_first_closed_first(ts, i, tag, 2, j);
                }
            }
        },
        Some((s, e)) => {
            assert forall|j: int| i <= j < s implies !#[trigger] is_hit(ts, j, tag, name) by {
                if is_hit(ts, j, tag, name) {
                    lemma_first_closed_first(ts, i, tag, 2, j);
                }
            }
            if started_child_text(ts, s + 1, e, "name"@) != Some(name) {
                lemma_named_first(ts, s + 1, tag, name);
                assert(!is_hit(ts, s, tag, name));
            }
        },
    }
}

/// The first element that is looked for is found.
proof fn lemma_hit_found(ts: Seq<Token>, tag: Seq<char>, name: Seq<char>, x: int)
    requires
        0 <= x < ts.len(),
        is_hit(ts, x, tag, name),
        forall|j: int| 0 <= j < x ==> !#[trigger] is_hit(ts, j, tag, name),
    ensures
        named_element(ts, 0, tag, name) == Some((x, close_of(ts, x, ts.len() as int)->0)),
{
    lemma_named_first(ts, 0, tag, name);
    if let Some((s, _)) = named_element(ts, 0, tag, name) {
        if s < x {
            assert(!is_hit(ts, s, tag, name));
        } else if x < s {
            assert(!is_hit(ts, x, tag, name));
        }
    }
}

// ---------- Names inside an element ----------

proof fn lemma_started_shift(
    ts: Seq<Token>,
    us: Seq<Token>,
    i: int,
    end: int,
    b: int,
    name: Seq<char>,
)
    requires
        same_events(ts, us, i, end, b),
    ensures
        started_child_text(us, i + b, end + b, name) == started_child_text(ts, i, end, name),
    decreases end - i,
{
    if i < end {
        assert(ts[i] == us[i + b]);
        match ts[i] {
            Token::Start(n) => {
                lemma_close_shift(ts, us, i + 1, end, b, 1);
                lemma_close_from(ts, i + 1, end, 1);
                match close_of(ts, i, end) {
                    Some(j) => {
                        assert(same_events(ts, us, i + 1, j, b));
                        crate::edit::lemma_text_shift(ts, us, i + 1, j, b);
                        if n != name {
                            lemma_started_shift(ts, us, j + 1, end, b, name);
                        }
                    },
                    None => {
                        crate::edit::lemma_text_shift(ts, us, i + 1, end, b);
                    },
                }
            },
            _ => {
                lemma_started_shift(ts, us, i + 1, end, b, name);
            },
        }
    }
}

/// The first child in two stretches, the first of which is balanced.
proof fn lemma_started_concat(ts: Seq<Token>, i: int, p: int, end: int, name: Seq<char>)
    requires
        0 <= i <= p <= end <= ts.len(),
        balanced(ts.subrange(i, p)),
    ensures
        started_child_text(ts, i, end, name) == match started_child_text(ts, i, p, name) {
            Some(text) => Some(text),
            None => started_child_text(ts, p, end, name),
        },
        started_child_text(ts, i, p, name) is Some ==> child_ranges(ts, i, p, name).len() > 0,
    decreases p - i,
{
    if i < p {
        lemma_balanced(ts, i, p);
        match ts[i] {
            Token::Start(n) => {
                lemma_close_inside(ts, i, p, end);
                let j = close_of(ts, i, end)->0;
                if n != name {
                    lemma_started_concat(ts, j + 1, p, end, name);
                }
            },
            Token::End(_) => {
                assert(depth_at(ts, i + 1) == depth_at(ts, i) - 1);
                assert(depth_at(ts, i + 1) >= depth_at(ts, i));
            },
            _ => {
                assert(depth_at(ts, i + 1) == depth_at(ts, i));
                lemma_balanced(ts, i, i + 1);
                lemma_balanced_rest(ts, i, i + 1, p);
                lemma_started_concat(ts, i + 1, p, end, name);
            },
        }
    }
}

/// An edit inside an element that neither takes out nor adds a child `name` keeps
/// the first of them.
proof fn lemma_started_edit(
    ts: Seq<Token>,
    p: int,
    q: int,
    w: Seq<Token>,
    i: int,
    end: int,
    name: Seq<char>,
)
    requires
        0 <= i <= p <= q <= end <= ts.len(),
        balanced(ts.subrange(i, p)),
        balanced(ts.subrange(p, q)),
        balanced(w),
        child_ranges(ts, p, q, name).len() == 0,
        child_ranges(w, 0, w.len() as int, name).len() == 0,
    ensures
        started_child_text(edited(ts, p, q, w), i, end + w.len() - (q - p), name)
            == started_child_text(ts, i, end, name),
{
    let us = edited(ts, p, q, w);
    let b = w.len() - (q - p);
    let m = p + w.len();
    assert(us.subrange(i, p) =~= ts.subrange(i, p));
    assert(us.subrange(p, m) =~= w);
    assert(same_events(ts, us, i, p, 0));
    assert(same_events(w, us, 0, w.len() as int, p));
    assert(same_events(ts, us, q, end, b));
    lemma_started_concat(ts, i, p, end, name);
    lemma_started_concat(ts, p, q, end, name);
    lemma_started_concat(us, i, p, end + b, name);
    lemma_started_concat(us, p, m, end + b, name);
    lemma_started_shift(ts, us, i, p, 0, name);
    lemma_started_shift(w, us, 0, w.len() as int, p, name);
    lemma_started_shift(ts, us, q, end, b, name);
    assert(w.subrange(0, w.len() as int) =~= w);
    lemma_started_concat(w, 0, w.len() as int, w.len() as int, name);
}

// ---------- Elements that an edit leaves ----------

/// Inside an edit the depth is counted from its start.
proof fn lemma_depth_new(ts: Seq<Token>, p: int, q: int, w: Seq<Token>, k: int)
    requires
        0 <= p <= q <= ts.len(),
        0 <= k <= w.len(),
    ensures
        depth_at(edited(ts, p, q, w), p + k) == depth_at(ts, p) + depth_at(w, k),
{
    let us = edited(ts, p, q, w);
    lemma_depth_agree(ts, us, p);
    assert(us.subrange(p, p + w.len()) =~= w);
    lemma_depth_part(us, p, p + w.len(), k);
}

/// The element that starts at `j` holds the edit.
pub open spec fn holds_edit(ts: Seq<Token>, j: int, p: int, q: int) -> bool {
    j < p && (close_of(ts, j, ts.len() as int) matches Some(y) && y >= q)
}

/// An element that does not start in the edit is looked for or not, as before.
proof fn lemma_hit_moved(
    ts: Seq<Token>,
    p: int,
    q: int,
    w: Seq<Token>,
    tag: Seq<char>,
    name: Seq<char>,
    j: int,
)
    requires
        0 <= p <= q <= ts.len(),
        0 <= j < ts.len(),
        j < p || j >= q,
        balanced(ts.subrange(p, q)),
        balanced(w),
        ts[j] == Token::Start(tag) && depth_at(ts, j) == 2 && holds_edit(ts, j, p, q) ==> ({
            let y = close_of(ts, j, ts.len() as int)->0;
            started_child_text(edited(ts, p, q, w), j + 1, y + w.len() - (q - p), "name"@)
                == started_child_text(ts, j + 1, y, "name"@)
        }),
    ensures
        is_hit(edited(ts, p, q, w), moved(j, p, w.len() - (q - p)), tag, name) == is_hit(
            ts,
            j,
            tag,
            name,
        ),
{
    let us = edited(ts, p, q, w);
    let b = w.len() - (q - p);
    lemma_close_moved(ts, p, q, w, j);
    if let Some(y) = close_of(ts, j, ts.len() as int) {
        if y < p {
            assert(same_events(ts, us, j + 1, y, 0));
            lemma_started_shift(ts, us, j + 1, y, 0, "name"@);
        } else if j >= q {
            assert(same_events(ts, us, j + 1, y, b));
            lemma_started_shift(ts, us, j + 1, y, b, "name"@);
        }
    }
}

/// An element that is found by its name is found after an edit that does not take
/// it out, adds no element of its kind, and leaves the name of the one around it.
proof fn lemma_named_edit(
    ts: Seq<Token>,
    p: int,
    q: int,
    w: Seq<Token>,
    tag: Seq<char>,
    name: Seq<char>,
)
    requires
        0 <= p <= q <= ts.len(),
        balanced(ts.subrange(p, q)),
        balanced(w),
        named_element(ts, 0, tag, name) matches Some((x, _)) && (x < p || x >= q),
        forall|k: int|
            0 <= k < w.len() && #[trigger] w[k] == Token::Start(tag) ==> depth_at(ts, p) + depth_at(
                w,
                k,
            ) != 2,
        forall|j: int|
            0 <= j < p && #[trigger] ts[j] == Token::Start(tag) && depth_at(ts, j) == 2
                && holds_edit(ts, j, p, q) ==> ({
                let y = close_of(ts, j, ts.len() as int)->0;
                started_child_text(edited(ts, p, q, w), j + 1, y + w.len() - (q - p), "name"@)
                    == started_child_text(ts, j + 1, y, "name"@)
            }),
    ensures
        ({
            let (x, y) = named_element(ts, 0, tag, name)->0;
            let b = w.len() - (q - p);
            named_element(edited(ts, p, q, w), 0, tag, name) == Some(
                (moved(x, p, b), moved(y, p, b)),
            )
        }),
{
    let us = edited(ts, p, q, w);
    let b = w.len() - (q - p);
    lemma_named_first(ts, 0, tag, name);
    let (x, y) = named_element(ts, 0, tag, name)->0;
    lemma_hit_moved(ts, p, q, w, tag, name, x);
    lemma_close_moved(ts, p, q, w, x);
    let x2 = moved(x, p, b);
    assert forall|j: int| 0 <= j < x2 implies !#[trigger] is_hit(us, j, tag, name) by {
        if j < p {
            assert(j < x);
            assert(!is_hit(ts, j, tag, name));
            lemma_hit_moved(ts, p, q, w, tag, name, j);
        } else if j < p + w.len() {
            assert(us[j] == w[j - p]);
            lemma_depth_new(ts, p, q, w, j - p);
        } else {
            let k = j - b;
            assert(q <= k < x);
            assert(!is_hit(ts, k, tag, name));
            lemma_hit_moved(ts, p, q, w, tag, name, k);
            assert(moved(k, p, b) == j);
        }
    }
    lemma_hit_found(us, tag, name, x2);
}

/// An element at the top level of balanced events is among the children.
proof fn lemma_top_is_child(w: Seq<Token>, k: int, name: Seq<char>)
    requires
        balanced(w),
        0 <= k < w.len(),
        w[k] == Token::Start(name),
        depth_at(w, k) == 0,
    ensures
        child_ranges(w, 0, w.len() as int, name).len() > 0,
{
    let n = w.len() as int;
    assert(w.subrange(0, n) =~= w);
    lemma_balanced(w, 0, n);
    lemma_balanced(w, 0, k);
    lemma_balanced_rest(w, 0, k, n);
    lemma_children_concat(w, 0, k, n, name);
    lemma_close_inside(w, k, n, n);
}

/// Inside an element that is inside two others, more than two are open.
proof fn lemma_deeper(ts: Seq<Token>, j: int, m: int)
    requires
        0 <= j < ts.len(),
        ts[j] is Start,
        depth_at(ts, j) == 2,
        close_of(ts, j, ts.len() as int) matches Some(y) && j < m <= y,
    ensures
        depth_at(ts, m) > 2,
{
    lemma_close_depth(ts, j + 1, ts.len() as int, 1);
    assert(depth_at(ts, j + 1) == 3);
}

// ---------- Edits in the system element ----------

/// A group is found after an edit between the children of `<system>` that is no
/// edit of groups.
proof fn lemma_group_between(
    ts: Seq<Token>,
    p: int,
    q: int,
    w: Seq<Token>,
    group: Seq<char>,
    k: int,
)
    requires
        between(ts, p, q, w),
        child_ranges(ts, p, q, "group"@).len() == 0,
        child_ranges(w, 0, w.len() as int, "group"@).len() == 0,
        is_group_at(ts, group, k),
    ensures
        is_group_at(edited(ts, p, q, w), group, k),
{
    let us = edited(ts, p, q, w);
    let b = w.len() - (q - p);
    let (s, e) = system(ts);
    lemma_system(ts);
    lemma_system_depth(ts);
    lemma_system_edit(ts, p, q, w);
    lemma_kept_between(ts, p, q, w, "group"@);
    lemma_balanced(ts, s + 1, p);
    assert(depth_at(ts, s + 1) == 2);
    assert(depth_at(ts, p) == 2);
    let rs = system_children(ts, "group"@);
    assert forall|m: int| 0 <= m < w.len() && #[trigger] w[m] == Token::Start("group"@) implies
        depth_at(ts, p) + depth_at(w, m) != 2 by {
        if depth_at(w, m) == 0 {
            lemma_top_is_child(w, m, "group"@);
        }
    }
    assert forall|j: int|
        0 <= j < p && #[trigger] ts[j] == Token::Start("group"@) && depth_at(ts, j) == 2
            && holds_edit(ts, j, p, q) implies ({
        let y = close_of(ts, j, ts.len() as int)->0;
        started_child_text(us, j + 1, y + b, "name"@) == started_child_text(ts, j + 1, y, "name"@)
    }) by {
        lemma_deeper(ts, j, p);
    }
    assert(rs[k] == rs[k]);
    lemma_named_edit(ts, p, q, w, "group"@, group);
    lemma_kept_element(ts, p, q, w, rs[k], "name"@);
    assert(system_children(us, "group"@)[k] == moved_range(rs[k], p, b));
}

/// Of two elements inside two others, not both hold the same place.
proof fn lemma_one_around(ts: Seq<Token>, x: int, j: int, p: int)
    requires
        0 <= x < p,
        0 <= j < p,
        p <= ts.len(),
        ts[x] is Start,
        ts[j] is Start,
        depth_at(ts, x) == 2,
        depth_at(ts, j) == 2,
        close_of(ts, x, ts.len() as int) matches Some(y) && p <= y,
        close_of(ts, j, ts.len() as int) matches Some(y) && p <= y,
    ensures
        x == j,
{
    if j < x {
        lemma_deeper(ts, j, x);
    } else if x < j {
        lemma_deeper(ts, x, j);
    }
}

/// A child of `<system>` that has tags is closed, inside two others.
proof fn lemma_child_depth(ts: Seq<Token>, tag: Seq<char>, k: int)
    requires
        system_range(ts) is Ok,
        0 <= k < system_children(ts, tag).len(),
        system_children(ts, tag)[k].0 < system_children(ts, tag)[k].1,
    ensures
        ({
            let (x, y) = system_children(ts, tag)[k];
            &&& 0 <= x < y < ts.len()
            &&& ts[x] == Token::Start(tag)
            &&& depth_at(ts, x) == 2
            &&& close_of(ts, x, ts.len() as int) == Some(y)
        }),
{
    let (s, e) = system(ts);
    let (x, y) = system_children(ts, tag)[k];
    lemma_child_place(ts, tag, k);
    lemma_system_depth(ts);
    assert(depth_at(ts, s + 1) == 2);
    lemma_balanced(ts, s + 1, x);
    lemma_close_wider(ts, x, e, ts.len() as int);
}

/// A group is found after an edit inside a child of `<system>`, where that is no
/// group, or a group that keeps its name.
#[verifier::rlimit(30)]
proof fn lemma_group_inside(
    ts: Seq<Token>,
    p: int,
    q: int,
    w: Seq<Token>,
    tag: Seq<char>,
    c: int,
    group: Seq<char>,
    k: int,
)
    requires
        inside(ts, p, q, w, tag, c),
        forall|m: int| 0 <= m < w.len() ==> #[trigger] w[m] != Token::Start("group"@),
        is_group_at(ts, group, k),
        tag == "group"@ ==> ({
            let us = edited(ts, p, q, w);
            let b = w.len() - (q - p);
            let (x, y) = system_children(ts, tag)[c];
            &&& started_child_text(us, x + 1, y + b, "name"@) == started_child_text(
                ts,
                x + 1,
                y,
                "name"@,
            )
            &&& child_text(us, (x, y + b), "name"@) == child_text(ts, (x, y), "name"@)
        }),
    ensures
        is_group_at(edited(ts, p, q, w), group, k),
{
    let us = edited(ts, p, q, w);
    let b = w.len() - (q - p);
    lemma_child_depth(ts, tag, c);
    lemma_child_place(ts, tag, c);
    lemma_child_place(ts, "group"@, k);
    let (x, y) = system_children(ts, tag)[c];
    lemma_inside(ts, p, q, w, tag, c, "group"@);
    let r = system_children(ts, "group"@)[k];
    lemma_named_element(ts, 0, "group"@, group);
    assert forall|j: int|
        0 <= j < p && #[trigger] ts[j] == Token::Start("group"@) && depth_at(ts, j) == 2
            && holds_edit(ts, j, p, q) implies ({
        let z = close_of(ts, j, ts.len() as int)->0;
        started_child_text(us, j + 1, z + b, "name"@) == started_child_text(ts, j + 1, z, "name"@)
    }) by {
        lemma_one_around(ts, x, j, p);
    }
    assert(r.0 < p || r.0 >= q) by {
        if p <= r.0 && r.0 < q {
            lemma_deeper(ts, x, r.0);
        }
    }
    lemma_named_edit(ts, p, q, w, "group"@, group);
    assert(system_children(us, "group"@)[k] == moved_range(r, p, b));
    if tag == "group"@ && c == k {
        assert(moved_range(r, p, b) == (x, y + b));
    } else {
        assert(r.1 < p || r.0 >= q) by {
            if tag == "group"@ {
                assert(r.1 < x || r.0 > y);
            } else {
                assert(system_children(ts, "group"@)[k] == r);
            }
        }
        lemma_kept_element(ts, p, q, w, r, "name"@);
    }
}

// ---------- What follows the changes ----------

proof fn lemma_first_named_kept(ts: Seq<Token>, us: Seq<Token>, i: int, x: int, name: Seq<char>)
    requires
        0 <= i <= x < ts.len(),
        x < us.len(),
        first_named(ts, i, name) == Some(x),
        forall|k: int| i <= k <= x ==> ts[k] == #[trigger] us[k],
    ensures
        first_named(us, i, name) == Some(x),
    decreases x - i,
{
    assert(ts[i] == us[i]);
    if ts[i] != Token::Start(name) {
        lemma_first_named(ts, i + 1, name);
        lemma_first_named_kept(ts, us, i + 1, x, name);
    }
}

/// Where a user is appended.
proof fn lemma_append_place(xml: Seq<char>, row: Row)
    requires
        scanned(xml),
        regular(tokens_of(lexemes(xml)->Ok_0)),
    ensures
        ({
            let ls = lexemes(xml)->Ok_0;
            let ts = tokens_of(ls);
            let e = system(ts).1;
            let v = appended(xml, ls, row);
            let w = tokens_of(v);
            &&& mutated(xml, Change::AppendUser(row)) matches Ok(new)
            &&& lexemes(new) == Ok::<Seq<Lexeme>, Seq<char>>(replaced(ls, e, e, v))
            &&& tokens_of(replaced(ls, e, e, v)) == edited(ts, e, e, w)
            &&& between(ts, e, e, w)
            &&& child_ranges(w, 0, w.len() as int, "group"@).len() == 0
            &&& child_ranges(w, 0, w.len() as int, "nextuid"@).len() == 0
        }),
{
    reveal(scanned);
    let ls = lexemes(xml)->Ok_0;
    let ts = tokens_of(ls);
    lemma_system(ts);
    let (s, e) = system(ts);
    assert(ls[e].token is End);
    lemma_append_events(xml, ls, row, e);
    let indent = user_indent(xml, ls);
    lemma_user_indent(xml, ls);
    let at = before(xml, ls, e);
    let new = spliced(xml, at, at, user_block(row, indent));
    assert(mutated(xml, Change::AppendUser(row)) == Ok::<Seq<char>, Failure>(new));
    lemma_system_names();
    lemma_block_children(row, indent, seq!['\n'], "group"@);
    lemma_block_children(row, indent, seq!['\n'], "nextuid"@);
}

/// What a user that is appended leaves in place.
proof fn lemma_after_append(xml: Seq<char>, row: Row, next: Change)
    requires
        scanned(xml),
        fits(xml, Change::AppendUser(row)),
        fits(xml, next),
        next is AddGroupMember || next is SetNextUid,
    ensures
        mutated(xml, Change::AppendUser(row)) matches Ok(new) && fits(new, next),
{
    reveal(scanned);
    let ls = lexemes(xml)->Ok_0;
    let ts = tokens_of(ls);
    lemma_append_place(xml, row);
    let (s, e) = system(ts);
    let w = tokens_of(appended(xml, ls, row));
    let us = edited(ts, e, e, w);
    lemma_system_edit(ts, e, e, w);
    match next {
        Change::AddGroupMember(group, _) => {
            let k = choose|k: int| #[trigger] is_group_at(ts, group, k);
            lemma_group_between(ts, e, e, w, group, k);
        },
        Change::SetNextUid(_) => {
            lemma_kept_between(ts, e, e, w, "nextuid"@);
            lemma_child_place(ts, "nextuid"@, 0);
            let r = system_children(ts, "nextuid"@)[0];
            assert(system_children(us, "nextuid"@)[0] == moved_range(r, e, w.len() as int));
            lemma_first_named_kept(ts, us, 0, r.0, "nextuid"@);
        },
        _ => {},
    }
}

/// What a next uid that is set leaves in place.
proof fn lemma_after_next_uid(xml: Seq<char>, n: u32, group: Seq<char>, uid: u32)
    requires
        scanned(xml),
        fits(xml, Change::SetNextUid(n)),
        fits(xml, Change::AddGroupMember(group, uid)),
    ensures
        mutated(xml, Change::SetNextUid(n)) matches Ok(new) && fits(
            new,
            Change::AddGroupMember(group, uid),
        ),
{
    reveal(scanned);
    let ls = lexemes(xml)->Ok_0;
    let ts = tokens_of(ls);
    lemma_child_place(ts, "nextuid"@, 0);
    let (s, e) = system(ts);
    let (i, j) = system_children(ts, "nextuid"@)[0];
    lemma_first_named(ts, 0, "nextuid"@);
    assert(i < j);
    lemma_close_wider(ts, i, e, ts.len() as int);
    lemma_inner_balanced(ts, i, j, e);
    let text = decimal(n as nat);
    decimal_is_digits(n as nat);
    lemma_digits_plain(text);
    let v = seq![text_piece(text)];
    let w = tokens_of(v);
    lemma_whole_text(open_at(ls, i + 1), text);
    assert(ls[i].token is Start);
    assert(ls[j].token is End);
    lemma_before(xml, ls, i + 1, j);
    lemma_replaced(xml, ls, i + 1, j, v);
    let start = before(xml, ls, i + 1);
    let end = before(xml, ls, j);
    let new = spliced(xml, start, end, text);
    assert(xml.skip(end.len() as int) =~= source(ls.skip(j)));
    assert(mutated(xml, Change::SetNextUid(n)) == Ok::<Seq<char>, Failure>(new));
    lemma_system_names();
    assert(inside(ts, i + 1, j, w, "nextuid"@, 0));
    let k = choose|k: int| #[trigger] is_group_at(ts, group, k);
    assert(w[0] is Text);
    lemma_group_inside(ts, i + 1, j, w, "nextuid"@, 0, group, k);
}

proof fn lemma_member_names()
    ensures
        "name"@ != "member"@,
        "group"@ != "member"@,
        "user"@ != "member"@,
{
    reveal_strlit("name");
    reveal_strlit("group");
    reveal_strlit("user");
    reveal_strlit("member");
    assert("name"@.len() == 4 && "member"@.len() == 6 && "group"@.len() == 5 && "user"@.len() == 4);
}

/// What a member that is added leaves in place.
proof fn lemma_after_member(
    xml: Seq<char>,
    group: Seq<char>,
    uid: u32,
    other: Seq<char>,
    other_uid: u32,
)
    requires
        scanned(xml),
        fits(xml, Change::AddGroupMember(group, uid)),
        fits(xml, Change::AddGroupMember(other, other_uid)),
    ensures
        mutated(xml, Change::AddGroupMember(group, uid)) matches Ok(new) && fits(
            new,
            Change::AddGroupMember(other, other_uid),
        ),
{
    reveal(scanned);
    let ls = lexemes(xml)->Ok_0;
    let ts = tokens_of(ls);
    let c = choose|c: int| #[trigger] is_group_at(ts, group, c);
    let k = choose|k: int| #[trigger] is_group_at(ts, other, k);
    lemma_child_place(ts, "group"@, c);
    let (x, e) = system_children(ts, "group"@)[c];
    lemma_named_element(ts, 0, "group"@, group);
    assert(ls[e].token is End);
    lemma_member_events(xml, ls, uid, e);
    let p = ahead_of_text(ls, e);
    let at = before(xml, ls, e);
    let indent = indent_of(at);
    let front = text_in_front(ls, e);
    let w = tokens_of(member_pieces(front, indent, uid));
    let new = spliced(xml, at, at, member_line(uid, indent));
    assert(mutated(xml, Change::AddGroupMember(group, uid)) == Ok::<Seq<char>, Failure>(new));
    assert(x < p) by {
        if p == x {
            assert(ls[e - 1].token is Text);
            assert(ts[x] is Start);
        }
    }
    assert(inside(ts, p, e, w, "group"@, c));
    lemma_inner_balanced(ts, x, e, ts.len() as int);
    assert(balanced(ts.subrange(x + 1, p))) by {
        lemma_balanced(ts, x + 1, e);
        lemma_balanced(ts, x + 1, p);
        if p < e {
            assert(ts[p] is Text);
            assert(depth_at(ts, e) == depth_at(ts, p));
        }
    }
    lemma_member_names();
    lemma_member_children(front, indent, uid, "name"@);
    lemma_group_edit(ts, p, e, w, x, front, indent, uid);
    assert(child_ranges(ts, p, e, "name"@).len() == 0) by {
        reveal_with_fuel(child_ranges, 2);
        if p < e {
            assert(ts[p] is Text);
        }
    }
    lemma_started_edit(ts, p, e, w, x + 1, e, "name"@);
    assert forall|m: int| 0 <= m < w.len() implies #[trigger] w[m] != Token::Start("group"@) by {
        let v = member_pieces(front, indent, uid);
        assert(v.len() == 5);
        assert(v[0].token is Text && v[1].token == Token::Start("member"@) && v[2].token is Text
            && v[3].token is End && v[4].token is Text);
        assert(w[m] == v[m].token);
    }
    lemma_group_inside(ts, p, e, w, "group"@, c, other, k);
}

// ---------- Members that are looked for ----------

/// A `<member>` inside three others, from event `x` to event `y`, holds the uid.
pub open spec fn is_found(ls: Seq<Lexeme>, x: int, y: int, uid: u32) -> bool {
    let ts = tokens_of(ls);
    &&& 0 <= x < y < ls.len()
    &&& ts[x] == Token::Start("member"@)
    &&& depth_at(ts, x) == 3
    &&& close_of(ts, x, ts.len() as int) == Some(y)
    &&& trimmed(source(ls.subrange(x + 1, y))) == decimal(uid as nat)
}

proof fn lemma_found_in(ls: Seq<Lexeme>, i: int, uid: u32, x: int, y: int)
    requires
        0 <= i <= x,
        is_found(ls, x, y, uid),
    ensures
        member_ranges(ls, i, uid).contains((x, y)),
    decreases x - i,
{
    let all = member_ranges(ls, i, uid);
    let rest = member_ranges(ls, i + 1, uid);
    if i == x {
        assert(all[0] == (x, y));
    } else {
        lemma_found_in(ls, i + 1, uid, x, y);
        let k = choose|k: int| 0 <= k < rest.len() && rest[k] == (x, y);
        assert(all[all.len() - rest.len() + k] == (x, y));
    }
}

/// An edit between the children of `<system>` that changes neither groups nor the
/// next uid, and adds no members.
pub open spec fn spares_members(ls: Seq<Lexeme>, p: int, q: int, v: Seq<Lexeme>) -> bool {
    let ts = tokens_of(ls);
    let w = tokens_of(v);
    &&& between(ts, p, q, w)
    &&& child_ranges(ts, p, q, "group"@).len() == 0
    &&& child_ranges(w, 0, w.len() as int, "group"@).len() == 0
    &&& child_ranges(ts, p, q, "nextuid"@).len() == 0
    &&& child_ranges(w, 0, w.len() as int, "nextuid"@).len() == 0
    &&& forall|m: int| 0 <= m < w.len() ==> #[trigger] w[m] != Token::Start("member"@)
    &&& tokens_of(replaced(ls, p, q, v)) == edited(ts, p, q, w)
}

/// A member that does not start in the edit holds the uid or not, as before.
proof fn lemma_found_moved(
    ls: Seq<Lexeme>,
    p: int,
    q: int,
    v: Seq<Lexeme>,
    uid: u32,
    x: int,
    y: int,
)
    requires
        spares_members(ls, p, q, v),
        0 <= x < y < ls.len(),
        x < p || x >= q,
        depth_at(tokens_of(ls), x) == 3,
        tokens_of(ls)[x] == Token::Start("member"@),
        close_of(tokens_of(ls), x, ls.len() as int) == Some(y),
    ensures
        ({
            let b = v.len() - (q - p);
            is_found(replaced(ls, p, q, v), moved(x, p, b), moved(y, p, b), uid) == is_found(
                ls,
                x,
                y,
                uid,
            )
        }),
{
    let ts = tokens_of(ls);
    let w = tokens_of(v);
    let next = replaced(ls, p, q, v);
    let b = v.len() - (q - p);
    let (s, e) = system(ts);
    lemma_system_depth(ts);
    assert(depth_at(ts, s + 1) == 2);
    lemma_balanced(ts, s + 1, p);
    lemma_close_moved(ts, p, q, w, x);
    if x < p && y >= q {
        lemma_close_depth(ts, x + 1, ts.len() as int, 1);
        assert(depth_at(ts, x + 1) == 4);
        assert(depth_at(ts, p) > 3);
    }
    assert(next.subrange(moved(x, p, b) + 1, moved(y, p, b)) =~= ls.subrange(x + 1, y));
}

/// A member that is found after such an edit was found before.
proof fn lemma_found_before(
    ls: Seq<Lexeme>,
    p: int,
    q: int,
    v: Seq<Lexeme>,
    uid: u32,
    k: int,
) -> (o: (int, int))
    requires
        spares_members(ls, p, q, v),
        0 <= k < member_ranges(replaced(ls, p, q, v), 0, uid).len(),
    ensures
        member_ranges(ls, 0, uid).contains(o),
        member_ranges(replaced(ls, p, q, v), 0, uid)[k] == moved_range(o, p, v.len() - (q - p)),
        0 <= o.0 < o.1 < ls.len(),
        o.0 < p || o.0 >= q,
{
    let ts = tokens_of(ls);
    let w = tokens_of(v);
    let next = replaced(ls, p, q, v);
    let us = tokens_of(next);
    let b = v.len() - (q - p);
    lemma_system_depth(ts);
    lemma_found(next, 0, uid, k);
    let (x2, y2) = member_ranges(next, 0, uid)[k];
    if p <= x2 < p + w.len() {
        assert(us[x2] == w[x2 - p]);
    }
    let x = if x2 < p {
        x2
    } else {
        x2 - b
    };
    lemma_close_moved(ts, p, q, w, x);
    assert(moved(x, p, b) == x2);
    let y = close_of(ts, x, ts.len() as int)->0;
    assert(moved(y, p, b) == y2);
    lemma_found_moved(ls, p, q, v, uid, x, y);
    lemma_found_in(ls, 0, uid, x, y);
    (x, y)
}

/// The memberships of a uid can be taken out after such an edit as before.
proof fn lemma_members_spared(ls: Seq<Lexeme>, p: int, q: int, v: Seq<Lexeme>, uid: u32)
    requires
        spares_members(ls, p, q, v),
        covers(tokens_of(ls), member_ranges(ls, 0, uid), uid),
    ensures
        ({
            let next = replaced(ls, p, q, v);
            &&& system_range(tokens_of(next)) is Ok
            &&& covers(tokens_of(next), member_ranges(next, 0, uid), uid)
        }),
{
    let ts = tokens_of(ls);
    let w = tokens_of(v);
    let next = replaced(ls, p, q, v);
    let us = tokens_of(next);
    let b = v.len() - (q - p);
    lemma_system_depth(ts);
    lemma_system_edit(ts, p, q, w);
    lemma_kept_between(ts, p, q, w, "group"@);
    let before_all = member_ranges(ls, 0, uid);
    let after_all = member_ranges(next, 0, uid);
    assert forall|r: (int, int), g: int, m: int| #[trigger]
        is_member(us, r, g, m) && is_uid(element_text(us, r), uid) implies after_all.contains(
        r,
    ) by {
        assert(system_children(us, "group"@).len() == system_children(ts, "group"@).len());
        lemma_member_moved(ts, p, q, w, g);
        let (x, y) = members_of(ts, g)[m];
        assert(is_member(ts, (x, y), g, m));
        assert(before_all.contains((x, y)));
        let n = choose|n: int| 0 <= n < before_all.len() && before_all[n] == (x, y);
        lemma_found(ls, 0, uid, n);
        lemma_found_moved(ls, p, q, v, uid, x, y);
        lemma_found_in(next, 0, uid, moved(x, p, b), moved(y, p, b));
    }
}

/// Members that are beside the next uid are so after such an edit.
proof fn lemma_beside_spared(ls: Seq<Lexeme>, p: int, q: int, v: Seq<Lexeme>, uid: u32)
    requires
        spares_members(ls, p, q, v),
        all_beside(tokens_of(ls), member_ranges(ls, 0, uid)),
    ensures
        ({
            let next = replaced(ls, p, q, v);
            all_beside(tokens_of(next), member_ranges(next, 0, uid))
        }),
{
    let ts = tokens_of(ls);
    let w = tokens_of(v);
    let next = replaced(ls, p, q, v);
    let us = tokens_of(next);
    let b = v.len() - (q - p);
    lemma_system_depth(ts);
    lemma_system_edit(ts, p, q, w);
    lemma_kept_between(ts, p, q, w, "nextuid"@);
    let rs = system_children(ts, "nextuid"@);
    let before_all = member_ranges(ls, 0, uid);
    let after_all = member_ranges(next, 0, uid);
    assert forall|k: int| 0 <= k < after_all.len() implies beside_next_uid(
        us,
        #[trigger] after_all[k],
    ) by {
        let o = lemma_found_before(ls, p, q, v, uid, k);
        let n = choose|n: int| 0 <= n < before_all.len() && before_all[n] == o;
        assert(beside_next_uid(ts, before_all[n]));
        if rs.len() > 0 {
            assert(clear_of(rs[0], p, q));
            assert(system_children(us, "nextuid"@)[0] == moved_range(rs[0], p, b));
            lemma_close_moved(ts, p, q, w, o.0);
            lemma_found(ls, 0, uid, n);
        }
    }
}

// ---------- What follows a changed or removed user ----------

proof fn lemma_lines_tags(child: Seq<char>, fields: Seq<Field>, tag: Seq<char>)
    requires
        forall|i: int| 0 <= i < fields.len() ==> (#[trigger] fields[i]).name != tag,
    ensures
        forall|m: int|
            0 <= m < lines_pieces(child, fields).len() ==> (
            #[trigger] lines_pieces(child, fields)[m]).token != Token::Start(tag),
    decreases fields.len(),
{
    if fields.len() > 0 {
        let rest = fields.drop_last();
        let f = fields.last();
        assert forall|i: int| 0 <= i < rest.len() implies (#[trigger] rest[i]).name != tag by {
            assert(rest[i] == fields[i]);
        }
        lemma_lines_tags(child, rest, tag);
        let inner = lines_pieces(child, rest);
        let line = line_pieces(child, f);
        let all = lines_pieces(child, fields);
        assert(fields[fields.len() - 1].name != tag);
        assert forall|m: int| 0 <= m < line.len() implies (#[trigger] line[m]).token
            != Token::Start(tag) by {
            if m > 0 {
                assert(line[m] == element_pieces(f)[m - 1]);
                if let Some(text) = f.text {
                    let part = text_pieces(escaped(text));
                    assert(element_pieces(f).len() == part.len() + 2);
                    if 1 < m && m - 1 <= part.len() {
                        assert(element_pieces(f)[m - 1] == part[m - 2]);
                    }
                }
            }
        }
        assert forall|m: int| 0 <= m < all.len() implies (#[trigger] all[m]).token != Token::Start(
            tag,
        ) by {
            if m < inner.len() {
                assert(all[m] == inner[m]);
            } else {
                assert(all[m] == line[m - inner.len()]);
            }
        }
    }
}

proof fn lemma_priv_tags(list: Seq<Seq<char>>)
    ensures
        forall|i: int| 0 <= i < priv_fields(list).len() ==> (#[trigger] priv_fields(list)[i]).name
            == "priv"@,
{
}

/// No element of a block is a member.
proof fn lemma_block_tags(row: Row, indent: Seq<char>, tail: Seq<char>)
    ensures
        ({
            let w = tokens_of(block_pieces(row, indent) + seq![text_piece(tail)]);
            forall|m: int| 0 <= m < w.len() ==> #[trigger] w[m] != Token::Start("member"@)
        }),
{
    reveal_strlit("member");
    reveal_strlit("scope");
    reveal_strlit("name");
    reveal_strlit("descr");
    reveal_strlit("uid");
    reveal_strlit("expires");
    reveal_strlit("dashboardcolumns");
    reveal_strlit("authorizedkeys");
    reveal_strlit("ipsecpsk");
    reveal_strlit("webguicss");
    reveal_strlit("bcrypt-hash");
    reveal_strlit("sha512-hash");
    reveal_strlit("md5-hash");
    reveal_strlit("disabled");
    reveal_strlit("priv");
    let tag = "member"@;
    assert(tag.len() == 6);
    let fields = user_fields(row);
    lemma_priv_tags(row.priv_list);
    assert forall|i: int| 0 <= i < fields.len() implies (#[trigger] fields[i]).name != tag by {
        assert(fields[i].name.len() != 6);
    }
    let child = indent + "\t"@;
    lemma_lines_tags(child, fields, tag);
    lemma_member_names();
    let lines = lines_pieces(child, fields);
    let block = block_pieces(row, indent);
    let all = block + seq![text_piece(tail)];
    let w = tokens_of(all);
    assert(block.len() == lines.len() + 3);
    assert forall|m: int| 0 <= m < w.len() implies #[trigger] w[m] != Token::Start(tag) by {
        assert(w[m] == all[m].token);
        if 1 <= m <= lines.len() {
            assert(all[m] == lines[m - 1]);
        }
    }
}

/// Where a user is replaced.
proof fn lemma_replace_place(xml: Seq<char>, row: Row, k: int)
    requires
        scanned(xml),
        is_user_at(tokens_of(lexemes(xml)->Ok_0), row.name, k),
    ensures
        ({
            let ls = lexemes(xml)->Ok_0;
            let (x, y) = system_children(tokens_of(ls), "user"@)[k];
            let q = past_text(ls, y);
            let v = replacement(xml, ls, row, x, y);
            &&& mutated(xml, Change::ReplaceUser(row)) matches Ok(new)
            &&& lexemes(new) == Ok::<Seq<Lexeme>, Seq<char>>(replaced(ls, x, q, v))
            &&& spares_members(ls, x, q, v)
        }),
{
    reveal(scanned);
    let ls = lexemes(xml)->Ok_0;
    let ts = tokens_of(ls);
    lemma_child_place(ts, "user"@, k);
    lemma_system(ts);
    let (s, e) = system(ts);
    let (x, y) = system_children(ts, "user"@)[k];
    lemma_named_element(ts, 0, "user"@, row.name);
    assert(ls[e].token is End);
    lemma_replace_events(xml, ls, row, x, y, e);
    let q = past_text(ls, y);
    let at = before(xml, ls, x);
    let indent = indent_of(at);
    let tail = seq!['\n'] + text_behind(ls, y);
    let w = tokens_of(replacement(xml, ls, row, x, y));
    let new = spliced(xml, at, before(xml, ls, y + 1), user_block(row, indent));
    assert(mutated(xml, Change::ReplaceUser(row)) == Ok::<Seq<char>, Failure>(new));
    lemma_system_names();
    lemma_one_child(ts, x, y, q, e, "group"@);
    lemma_one_child(ts, x, y, q, e, "nextuid"@);
    lemma_block_children(row, indent, tail, "group"@);
    lemma_block_children(row, indent, tail, "nextuid"@);
    lemma_block_tags(row, indent, tail);
    assert(between(ts, x, q, w));
}

/// Where a user is removed.
proof fn lemma_remove_place(xml: Seq<char>, name: Seq<char>, k: int)
    requires
        scanned(xml),
        is_user_at(tokens_of(lexemes(xml)->Ok_0), name, k),
    ensures
        ({
            let ls = lexemes(xml)->Ok_0;
            let (x, y) = system_children(tokens_of(ls), "user"@)[k];
            let p = ahead_of_text(ls, x);
            let q = past_text(ls, y);
            let v = cut(ls, x, y);
            &&& mutated(xml, Change::RemoveUser(name)) matches Ok(new)
            &&& lexemes(new) == Ok::<Seq<Lexeme>, Seq<char>>(replaced(ls, p, q, v))
            &&& spares_members(ls, p, q, v)
        }),
{
    reveal(scanned);
    let ls = lexemes(xml)->Ok_0;
    let ts = tokens_of(ls);
    lemma_child_place(ts, "user"@, k);
    lemma_system(ts);
    let (s, e) = system(ts);
    let (x, y) = system_children(ts, "user"@)[k];
    lemma_named_element(ts, 0, "user"@, name);
    assert(ls[e].token is End);
    lemma_cut(xml, ls, x, y, e);
    let p = ahead_of_text(ls, x);
    let q = past_text(ls, y);
    let v = cut(ls, x, y);
    let w = tokens_of(v);
    let kept = trim_blank_end(before(xml, ls, x));
    let new = spliced(xml, kept, before(xml, ls, y + 1), Seq::empty());
    assert(new =~= kept + xml.skip(before(xml, ls, y + 1).len() as int));
    assert(mutated(xml, Change::RemoveUser(name)) == Ok::<Seq<char>, Failure>(new));
    lemma_system_names();
    assert(s < p) by {
        if p == s {
            assert(ls[x - 1].token is Text);
            assert(ts[s] is Start);
        }
    }
    assert(balanced(ts.subrange(s + 1, p))) by {
        lemma_balanced(ts, s + 1, x);
        lemma_balanced(ts, s + 1, p);
        if p < x {
            assert(ts[p] is Text);
            assert(depth_at(ts, x) == depth_at(ts, p));
        }
    }
    assert(between(ts, p, q, w));
    assert(child_ranges(ts, p, q, "group"@).len() == 0);
    assert(child_ranges(w, 0, w.len() as int, "group"@).len() == 0);
    assert(child_ranges(ts, p, q, "nextuid"@).len() == 0);
    assert(child_ranges(w, 0, w.len() as int, "nextuid"@).len() == 0);
    assert forall|m: int| 0 <= m < w.len() implies #[trigger] w[m] != Token::Start("member"@) by {
        assert(w[m] == v[m].token);
        assert(v[m].token is Text);
    }
}

/// What a user that is replaced leaves in place.
proof fn lemma_after_replace(xml: Seq<char>, row: Row, next: Change)
    requires
        scanned(xml),
        fits(xml, Change::ReplaceUser(row)),
        fits(xml, next),
        next is AddGroupMember || next is RemoveGroupMembership,
    ensures
        mutated(xml, Change::ReplaceUser(row)) matches Ok(new) && fits(new, next) && (
        next matches Change::RemoveGroupMembership(uid) ==> spares_next_uid(xml, uid)
            ==> spares_next_uid(new, uid)),
{
    reveal(scanned);
    let ls = lexemes(xml)->Ok_0;
    let ts = tokens_of(ls);
    let c = choose|c: int| #[trigger] is_user_at(ts, row.name, c);
    lemma_replace_place(xml, row, c);
    let (x, y) = system_children(ts, "user"@)[c];
    let q = past_text(ls, y);
    let v = replacement(xml, ls, row, x, y);
    match next {
        Change::AddGroupMember(group, _) => {
            let k = choose|k: int| #[trigger] is_group_at(ts, group, k);
            lemma_group_between(ts, x, q, tokens_of(v), group, k);
        },
        Change::RemoveGroupMembership(uid) => {
            lemma_members_spared(ls, x, q, v, uid);
            if spares_next_uid(xml, uid) {
                lemma_beside_spared(ls, x, q, v, uid);
            }
        },
        _ => {},
    }
}

/// What a user that is removed leaves in place.
proof fn lemma_after_remove(xml: Seq<char>, name: Seq<char>, uid: u32)
    requires
        scanned(xml),
        fits(xml, Change::RemoveUser(name)),
        fits(xml, Change::RemoveGroupMembership(uid)),
    ensures
        mutated(xml, Change::RemoveUser(name)) matches Ok(new) && fits(
            new,
            Change::RemoveGroupMembership(uid),
        ) && (spares_next_uid(xml, uid) ==> spares_next_uid(new, uid)),
{
    reveal(scanned);
    let ls = lexemes(xml)->Ok_0;
    let ts = tokens_of(ls);
    let c = choose|c: int| #[trigger] is_user_at(ts, name, c);
    lemma_remove_place(xml, name, c);
    let (x, y) = system_children(ts, "user"@)[c];
    let p = ahead_of_text(ls, x);
    let q = past_text(ls, y);
    lemma_members_spared(ls, p, q, cut(ls, x, y), uid);
    if spares_next_uid(xml, uid) {
        lemma_beside_spared(ls, p, q, cut(ls, x, y), uid);
    }
}

// ---------- What follows removed memberships ----------

/// What a member that is taken out leaves in place.
proof fn lemma_after_cut(
    ts: Seq<Token>,
    p: int,
    q: int,
    w: Seq<Token>,
    r: (int, int),
    group: Seq<char>,
    k: int,
)
    requires
        takes_out(ts, p, q, w, r),
        is_group_at(ts, group, k),
    ensures
        is_group_at(edited(ts, p, q, w), group, k),
{
    let us = edited(ts, p, q, w);
    let b = w.len() - (q - p);
    let n = ts.len() as int;
    lemma_member_names();
    lemma_taken_children(ts, p, q, w, r, "group"@);
    lemma_taken_names(ts, p, q, w, r, "group"@, k, "name"@);
    lemma_named_element(ts, 0, "group"@, group);
    let (x, y) = named_element(ts, 0, "group"@, group)->0;
    lemma_clear_or_around(ts, p, q, x, y, n);
    assert forall|j: int|
        0 <= j < p && #[trigger] ts[j] == Token::Start("group"@) && depth_at(ts, j) == 2
            && holds_edit(ts, j, p, q) implies ({
        let z = close_of(ts, j, n)->0;
        started_child_text(us, j + 1, z + b, "name"@) == started_child_text(ts, j + 1, z, "name"@)
    }) by {
        let z = close_of(ts, j, n)->0;
        lemma_close_from(ts, j + 1, n, 1);
        lemma_around(ts, j, z, n, p);
        lemma_started_edit(ts, p, q, w, j + 1, z, "name"@);
    }
    lemma_named_edit(ts, p, q, w, "group"@, group);
    assert(system_children(us, "group"@)[k] == moved_range((x, y), p, b));
}

proof fn lemma_after_cuts(
    xml: Seq<char>,
    ls: Seq<Lexeme>,
    rs: Seq<(int, int)>,
    uid: u32,
    group: Seq<char>,
    k: int,
)
    requires
        lexemes(xml) == Ok::<Seq<Lexeme>, Seq<char>>(ls),
        well_scanned(ls),
        xml == bom(xml) + source(ls),
        removable(ls, rs, uid),
        covers(tokens_of(ls), rs, uid),
        is_group_at(tokens_of(ls), group, k),
    ensures
        lexemes(stripped(xml, positions(xml, ls, rs))) matches Ok(next) && is_group_at(
            tokens_of(next),
            group,
            k,
        ),
    decreases rs.len(),
{
    let places = positions(xml, ls, rs);
    if rs.len() > 0 {
        let (x, y) = rs.last();
        assert(rs[rs.len() - 1] == (x, y));
        assert(holds_uid(ls, (x, y), uid));
        lemma_cut_step(xml, ls, rs, uid);
        lemma_takes_out(xml, ls, x, y);
        lemma_after_cut(
            tokens_of(ls),
            ahead_of_text(ls, x),
            past_text(ls, y),
            tokens_of(cut(ls, x, y)),
            (x, y),
            group,
            k,
        );
        let new = cut_last(xml, ls, rs);
        let next = cut_events(ls, rs);
        lemma_before(xml, ls, x, y + 1);
        assert(xml.take(before(xml, ls, x).len() as int) =~= before(xml, ls, x));
        assert(stripped(xml, places) == stripped(new, places.drop_last()));
        lemma_after_cuts(new, next, rs.drop_last(), uid, group, k);
    }
}

/// What memberships that are taken out leave in place.
proof fn lemma_after_strip(xml: Seq<char>, uid: u32, group: Seq<char>, other: u32)
    requires
        scanned(xml),
        fits(xml, Change::RemoveGroupMembership(uid)),
        fits(xml, Change::AddGroupMember(group, other)),
    ensures
        mutated(xml, Change::RemoveGroupMembership(uid)) matches Ok(new) && fits(
            new,
            Change::AddGroupMember(group, other),
        ),
{
    reveal(scanned);
    let ls = lexemes(xml)->Ok_0;
    let ts = tokens_of(ls);
    let rs = member_ranges(ls, 0, uid);
    let k = choose|k: int| #[trigger] is_group_at(ts, group, k);
    lemma_found_removable(ls, uid);
    lemma_after_cuts(xml, ls, rs, uid, group, k);
}

// ---------- Several changes ----------

proof fn lemma_rest_fits(changes: Seq<Change>, new: Seq<char>)
    requires
        changes.len() > 0,
        forall|i: int| 0 < i < changes.len() ==> fits(new, #[trigger] changes[i]),
    ensures
        all_fit(new, changes.drop_first()),
{
    reveal(all_fit);
    let rest = changes.drop_first();
    assert forall|i: int| 0 <= i < rest.len() implies fits(new, #[trigger] rest[i]) by {
        assert(rest[i] == changes[i + 1]);
    }
}

/// Memberships that fit a document fit it one after the other.
pub proof fn lemma_members_fit(xml: Seq<char>, changes: Seq<Change>, last: Seq<char>)
    requires
        reads_back_all(xml, changes, last),
        all_fit(xml, changes),
        forall|i: int| 0 <= i < changes.len() ==> #[trigger] changes[i] is AddGroupMember,
    ensures
        fit_all(xml, changes),
    decreases changes.len(),
{
    if changes.len() > 0 {
        reveal(all_fit);
        let first = changes[0];
        let group = first->AddGroupMember_0;
        let uid = first->AddGroupMember_1;
        assert(first == Change::AddGroupMember(group, uid));
        let next = mutated(xml, first)->Ok_0;
        assert forall|i: int| 0 < i < changes.len() implies fits(next, #[trigger] changes[i]) by {
            let other = changes[i];
            assert(other == Change::AddGroupMember(
                other->AddGroupMember_0,
                other->AddGroupMember_1,
            ));
            lemma_after_member(xml, group, uid, other->AddGroupMember_0, other->AddGroupMember_1);
        }
        lemma_rest_fits(changes, next);
        let rest = changes.drop_first();
        assert forall|i: int| 0 <= i < rest.len() implies #[trigger] rest[i] is AddGroupMember by {
            assert(rest[i] == changes[i + 1]);
        }
        lemma_members_fit(next, rest, last);
    }
}

/// The changes that add a user, and that fit a document, fit it one after the
/// other.
pub proof fn lemma_add_fits(xml: Seq<char>, changes: Seq<Change>, last: Seq<char>)
    requires
        reads_back_all(xml, changes, last),
        all_fit(xml, changes),
        changes.len() >= 2,
        changes[0] is AppendUser,
        changes[1] is SetNextUid,
        forall|i: int| 2 <= i < changes.len() ==> #[trigger] changes[i] is AddGroupMember,
    ensures
        fit_all(xml, changes),
{
    reveal(all_fit);
    reveal_with_fuel(reads_back_all, 3);
    reveal_with_fuel(fit_all, 3);
    let row = changes[0]->AppendUser_0;
    let n = changes[1]->SetNextUid_0;
    assert(changes[0] == Change::AppendUser(row));
    assert(changes[1] == Change::SetNextUid(n));
    let first = mutated(xml, changes[0])->Ok_0;
    assert forall|i: int| 0 < i < changes.len() implies fits(first, #[trigger] changes[i]) by {
        lemma_after_append(xml, row, changes[i]);
    }
    lemma_rest_fits(changes, first);
    let one = changes.drop_first();
    assert(one[0] == changes[1]);
    let second = mutated(first, one[0])->Ok_0;
    assert forall|i: int| 0 < i < one.len() implies fits(second, #[trigger] one[i]) by {
        assert(one[i] == changes[i + 1]);
        let other = changes[i + 1];
        assert(other == Change::AddGroupMember(other->AddGroupMember_0, other->AddGroupMember_1));
        lemma_after_next_uid(first, n, other->AddGroupMember_0, other->AddGroupMember_1);
    }
    lemma_rest_fits(one, second);
    let two = one.drop_first();
    assert forall|i: int| 0 <= i < two.len() implies #[trigger] two[i] is AddGroupMember by {
        assert(two[i] == changes[i + 2]);
    }
    lemma_members_fit(second, two, last);
}

/// The changes that change a user and its memberships, and that fit a document,
/// fit it one after the other.
pub proof fn lemma_update_fits(xml: Seq<char>, changes: Seq<Change>, last: Seq<char>)
    requires
        reads_back_all(xml, changes, last),
        all_fit(xml, changes),
        changes.len() >= 1,
        changes[0] is ReplaceUser,
        changes.len() >= 2 ==> changes[1] is RemoveGroupMembership,
        forall|i: int| 2 <= i < changes.len() ==> #[trigger] changes[i] is AddGroupMember,
    ensures
        fit_all(xml, changes),
        changes.len() >= 2 && spares_next_uid(xml, changes[1]->RemoveGroupMembership_0)
            ==> spares_next_uid(
            mutated(xml, changes[0])->Ok_0,
            changes[1]->RemoveGroupMembership_0,
        ),
{
    reveal(all_fit);
    reveal_with_fuel(reads_back_all, 3);
    reveal_with_fuel(fit_all, 3);
    let row = changes[0]->ReplaceUser_0;
    assert(changes[0] == Change::ReplaceUser(row));
    let first = mutated(xml, changes[0])->Ok_0;
    let one = changes.drop_first();
    if one.len() > 0 {
        let uid = changes[1]->RemoveGroupMembership_0;
        assert(changes[1] == Change::RemoveGroupMembership(uid));
        assert forall|i: int| 0 < i < changes.len() implies fits(first, #[trigger] changes[i]) by {
            lemma_after_replace(xml, row, changes[i]);
        }
        lemma_after_replace(xml, row, changes[1]);
        lemma_rest_fits(changes, first);
        assert(one[0] == changes[1]);
        let second = mutated(first, one[0])->Ok_0;
        assert forall|i: int| 0 < i < one.len() implies fits(second, #[trigger] one[i]) by {
            assert(one[i] == changes[i + 1]);
            let other = changes[i + 1];
            assert(other == Change::AddGroupMember(
                other->AddGroupMember_0,
                other->AddGroupMember_1,
            ));
            lemma_after_strip(first, uid, other->AddGroupMember_0, other->AddGroupMember_1);
        }
        lemma_rest_fits(one, second);
        let two = one.drop_first();
        assert forall|i: int| 0 <= i < two.len() implies #[trigger] two[i] is AddGroupMember by {
            assert(two[i] == changes[i + 2]);
        }
        lemma_members_fit(second, two, last);
    }
}

/// The changes that delete a user, and that fit a document, fit it one after the
/// other.
pub proof fn lemma_delete_fits(xml: Seq<char>, name: Seq<char>, uid: u32, last: Seq<char>)
    requires
        ({
            let changes = seq![Change::RemoveUser(name), Change::RemoveGroupMembership(uid)];
            reads_back_all(xml, changes, last) && all_fit(xml, changes)
        }),
    ensures
        fit_all(xml, seq![Change::RemoveUser(name), Change::RemoveGroupMembership(uid)]),
        spares_next_uid(xml, uid) ==> spares_next_uid(
            mutated(xml, Change::RemoveUser(name))->Ok_0,
            uid,
        ),
{
    reveal(all_fit);
    reveal_with_fuel(reads_back_all, 3);
    reveal_with_fuel(fit_all, 3);
    let changes = seq![Change::RemoveUser(name), Change::RemoveGroupMembership(uid)];
    assert(fits(xml, changes[0]));
    assert(fits(xml, changes[1]));
    lemma_after_remove(xml, name, uid);
    assert(changes.drop_first()[0] == changes[1]);
}

} // verus!
