//! How the elements of a document change when a stretch of its events is
//! replaced.

use crate::tree::{
    child_ranges, child_text, child_texts, close_from, close_of, depth_at, element_text,
    lemma_close_depth, lemma_close_from, root_range, text_between,
};
use crate::xml::Token;
use vstd::prelude::*;

verus! {

/// Every element that starts in `u` ends in it, and every element that ends in
/// `u` starts in it.
pub open spec fn balanced(u: Seq<Token>) -> bool {
    &&& depth_at(u, u.len() as int) == 0
    &&& forall|k: int| 0 <= k <= u.len() ==> #[trigger] depth_at(u, k) >= 0
}

/// `ts` with the events from `p` up to `q` replaced by `w`.
pub open spec fn edited(ts: Seq<Token>, p: int, q: int, w: Seq<Token>) -> Seq<Token> {
    ts.take(p) + w + ts.skip(q)
}

/// Where event `k`, which is not replaced, stands after `b` events have been
/// added at `p`.
pub open spec fn moved(k: int, p: int, b: int) -> int {
    if k < p {
        k
    } else {
        k + b
    }
}

pub open spec fn moved_opt(k: Option<int>, p: int, b: int) -> Option<int> {
    match k {
        Some(j) => Some(moved(j, p, b)),
        None => None,
    }
}

pub open spec fn moved_ranges(rs: Seq<(int, int)>, p: int, b: int) -> Seq<(int, int)> {
    Seq::new(rs.len(), |k: int| (moved(rs[k].0, p, b), moved(rs[k].1, p, b)))
}

pub open spec fn shifted_ranges(rs: Seq<(int, int)>, b: int) -> Seq<(int, int)> {
    Seq::new(rs.len(), |k: int| (rs[k].0 + b, rs[k].1 + b))
}

/// The events of `ts` from `i` up to `end` are those of `us` from `i + b` on.
pub open spec fn same_events(ts: Seq<Token>, us: Seq<Token>, i: int, end: int, b: int) -> bool {
    &&& 0 <= i
    &&& end <= ts.len()
    &&& 0 <= i + b
    &&& end + b <= us.len()
    &&& forall|k: int| i <= k < end ==> #[trigger] ts[k] == us[k + b]
}

pub proof fn lemma_depth_agree(a: Seq<Token>, b: Seq<Token>, i: int)
    requires
        forall|k: int| 0 <= k < i ==> a[k] == b[k],
    ensures
        depth_at(a, i) == depth_at(b, i),
    decreases i,
{
    if i > 0 {
        lemma_depth_agree(a, b, i - 1);
    }
}

/// Depth inside a stretch of events is counted from its start.
pub proof fn lemma_depth_part(ts: Seq<Token>, p: int, q: int, k: int)
    requires
        0 <= p <= q <= ts.len(),
        0 <= k <= q - p,
    ensures
        depth_at(ts, p + k) == depth_at(ts, p) + depth_at(ts.subrange(p, q), k),
    decreases k,
{
    if k > 0 {
        lemma_depth_part(ts, p, q, k - 1);
        assert(ts.subrange(p, q)[k - 1] == ts[p + k - 1]);
    }
}

/// A stretch is balanced where the depth at its end is that at its start, and
/// not lower in between.
pub proof fn lemma_balanced(ts: Seq<Token>, p: int, q: int)
    requires
        0 <= p <= q <= ts.len(),
    ensures
        balanced(ts.subrange(p, q)) <==> {
            &&& depth_at(ts, q) == depth_at(ts, p)
            &&& forall|m: int| p <= m <= q ==> #[trigger] depth_at(ts, m) >= depth_at(ts, p)
        },
{
    let u = ts.subrange(p, q);
    assert forall|k: int| 0 <= k <= q - p implies #[trigger] depth_at(u, k) == depth_at(ts, p + k)
        - depth_at(ts, p) by {
        lemma_depth_part(ts, p, q, k);
    }
    if balanced(u) {
        assert forall|m: int| p <= m <= q implies #[trigger] depth_at(ts, m) >= depth_at(ts, p) by {
            assert(depth_at(u, m - p) >= 0);
        }
        assert(depth_at(u, q - p) == 0);
    }
    if depth_at(ts, q) == depth_at(ts, p) && forall|m: int|
        p <= m <= q ==> #[trigger] depth_at(ts, m) >= depth_at(ts, p) {
        assert forall|k: int| 0 <= k <= u.len() implies #[trigger] depth_at(u, k) >= 0 by {
            assert(depth_at(ts, p + k) >= depth_at(ts, p));
        }
        assert(depth_at(u, q - p) == 0);
    }
}

/// What stands between the tags of an element is balanced.
pub proof fn lemma_inner_balanced(ts: Seq<Token>, s: int, e: int, end: int)
    requires
        0 <= s < end <= ts.len(),
        ts[s] is Start,
        close_of(ts, s, end) == Some(e),
    ensures
        s < e < end,
        ts[e] is End,
        balanced(ts.subrange(s + 1, e)),
        balanced(ts.subrange(s, e + 1)),
{
    lemma_close_from(ts, s + 1, end, 1);
    lemma_close_depth(ts, s + 1, end, 1);
    assert(depth_at(ts, s + 1) == depth_at(ts, s) + 1);
    assert(depth_at(ts, e + 1) == depth_at(ts, e) - 1);
    lemma_balanced(ts, s + 1, e);
    lemma_balanced(ts, s, e + 1);
    assert forall|m: int| s <= m <= e + 1 implies #[trigger] depth_at(ts, m) >= depth_at(ts, s) by {
        if m != s && m != e + 1 {
            assert(depth_at(ts, m) > depth_at(ts, s + 1) - 1);
        }
    }
}

/// A balanced stretch is passed over in the search for an end tag.
pub proof fn lemma_close_skip(ts: Seq<Token>, p: int, q: int, end: int, d: nat)
    requires
        0 <= p <= q <= end <= ts.len(),
        balanced(ts.subrange(p, q)),
        d >= 1,
    ensures
        close_from(ts, p, end, d) == close_from(ts, q, end, d),
{
    lemma_close_skip_part(ts, p, q, end, d, q - p);
}

proof fn lemma_close_skip_part(ts: Seq<Token>, p: int, q: int, end: int, d: nat, k: int)
    requires
        0 <= p <= q <= end <= ts.len(),
        balanced(ts.subrange(p, q)),
        d >= 1,
        0 <= k <= q - p,
    ensures
        close_from(ts, p, end, d) == close_from(
            ts,
            p + k,
            end,
            (d + depth_at(ts.subrange(p, q), k)) as nat,
        ),
    decreases k,
{
    let u = ts.subrange(p, q);
    if k > 0 {
        lemma_close_skip_part(ts, p, q, end, d, k - 1);
        assert(u[k - 1] == ts[p + k - 1]);
        assert(depth_at(u, k - 1) >= 0);
        assert(depth_at(u, k) >= 0);
    }
}

/// An end tag is found where the depth falls below that of the element.
pub proof fn lemma_close_exists(ts: Seq<Token>, i: int, end: int, d: nat, y: int)
    requires
        0 <= i < y <= end <= ts.len(),
        d >= 1,
        depth_at(ts, y) <= depth_at(ts, i) - d,
    ensures
        close_from(ts, i, end, d) matches Some(j) && i <= j < y,
    decreases y - i,
{
    match ts[i] {
        Token::Start(_) => {
            lemma_close_exists(ts, i + 1, end, d + 1, y);
        },
        Token::End(_) => {
            if d > 1 {
                lemma_close_exists(ts, i + 1, end, (d - 1) as nat, y);
            }
        },
        _ => {
            lemma_close_exists(ts, i + 1, end, d, y);
        },
    }
}

pub proof fn lemma_close_shift(ts: Seq<Token>, us: Seq<Token>, i: int, end: int, b: int, d: nat)
    requires
        same_events(ts, us, i, end, b),
    ensures
        close_from(us, i + b, end + b, d) == match close_from(ts, i, end, d) {
            Some(j) => Some(j + b),
            None => None,
        },
    decreases end - i,
{
    if i < end {
        assert(ts[i] == us[i + b]);
        match ts[i] {
            Token::Start(_) => lemma_close_shift(ts, us, i + 1, end, b, d + 1),
            Token::End(_) => if d > 1 {
                lemma_close_shift(ts, us, i + 1, end, b, (d - 1) as nat);
            },
            _ => lemma_close_shift(ts, us, i + 1, end, b, d),
        }
    }
}

/// A bound further away does not change where an end tag is found.
pub proof fn lemma_close_bound(ts: Seq<Token>, i: int, end: int, more: int, d: nat)
    requires
        end <= more,
    ensures
        close_from(ts, i, end, d) is Some ==> close_from(ts, i, more, d) == close_from(
            ts,
            i,
            end,
            d,
        ),
        close_from(ts, i, more, d) matches Some(j) ==> (j < end ==> close_from(ts, i, end, d)
            == Some(j)),
    decreases end - i,
{
    if i < end {
        match ts[i] {
            Token::Start(_) => lemma_close_bound(ts, i + 1, end, more, d + 1),
            Token::End(_) => if d > 1 {
                lemma_close_bound(ts, i + 1, end, more, (d - 1) as nat);
            },
            _ => lemma_close_bound(ts, i + 1, end, more, d),
        }
    } else {
        lemma_close_from(ts, i, more, d);
    }
}

/// An edit moves the end tags behind it.
pub proof fn lemma_close_edit(
    ts: Seq<Token>,
    p: int,
    q: int,
    w: Seq<Token>,
    i: int,
    end: int,
    d: nat,
)
    requires
        0 <= i <= p <= q <= end <= ts.len(),
        balanced(ts.subrange(p, q)),
        balanced(w),
        d >= 1,
    ensures
        ({
            let b = w.len() - (q - p);
            &&& close_from(edited(ts, p, q, w), i, end + b, d) == moved_opt(
                close_from(ts, i, end, d),
                p,
                b,
            )
            &&& close_from(ts, i, end, d) matches Some(j) ==> j < p || j >= q
        }),
    decreases p - i,
{
    let us = edited(ts, p, q, w);
    let b = w.len() - (q - p);
    if i == p {
        lemma_close_skip(ts, p, q, end, d);
        assert(us.subrange(p, p + w.len()) =~= w);
        lemma_close_skip(us, p, p + w.len(), end + b, d);
        assert(same_events(ts, us, q, end, b));
        lemma_close_shift(ts, us, q, end, b, d);
        lemma_close_from(ts, q, end, d);
    } else {
        assert(us[i] == ts[i]);
        match ts[i] {
            Token::Start(_) => lemma_close_edit(ts, p, q, w, i + 1, end, d + 1),
            Token::End(_) => if d > 1 {
                lemma_close_edit(ts, p, q, w, i + 1, end, (d - 1) as nat);
            },
            _ => lemma_close_edit(ts, p, q, w, i + 1, end, d),
        }
    }
}

// ---------- Children ----------

/// The ranges of children lie where they are looked for, and hold the tags.
pub proof fn lemma_children(ts: Seq<Token>, i: int, end: int, name: Seq<char>, k: int)
    requires
        0 <= i,
        end <= ts.len(),
        0 <= k < child_ranges(ts, i, end, name).len(),
    ensures
        ({
            let (x, y) = child_ranges(ts, i, end, name)[k];
            &&& i <= x <= y < end
            &&& balanced(ts.subrange(i, x))
            &&& x == y ==> ts[x] == Token::Empty(name)
            &&& x < y ==> ts[x] == Token::Start(name) && ts[y] is End && close_of(ts, x, end)
                == Some(y)
        }),
    decreases end - i,
{
    let all = child_ranges(ts, i, end, name);
    let (x, y) = all[k];
    match ts[i] {
        Token::Start(n) => {
            let j = close_of(ts, i, end)->0;
            lemma_close_from(ts, i + 1, end, 1);
            lemma_inner_balanced(ts, i, j, end);
            let rest = child_ranges(ts, j + 1, end, name);
            if n == name && k == 0 {
                assert(all[0] == (i, j));
                lemma_balanced(ts, i, i);
            } else {
                let m = if n == name {
                    k - 1
                } else {
                    k
                };
                assert(all[k] == rest[m]);
                lemma_children(ts, j + 1, end, name, m);
                lemma_balanced_join(ts, i, j + 1, x);
            }
        },
        Token::Empty(n) => {
            let rest = child_ranges(ts, i + 1, end, name);
            if n == name && k == 0 {
                assert(all[0] == (i, i));
                lemma_balanced(ts, i, i);
            } else {
                let m = if n == name {
                    k - 1
                } else {
                    k
                };
                assert(all[k] == rest[m]);
                lemma_children(ts, i + 1, end, name, m);
                lemma_flat_balanced(ts, i);
                lemma_balanced_join(ts, i, i + 1, x);
            }
        },
        Token::End(_) => {},
        _ => {
            lemma_children(ts, i + 1, end, name, k);
            lemma_flat_balanced(ts, i);
            lemma_balanced_join(ts, i, i + 1, x);
        },
    }
}

proof fn lemma_flat_balanced(ts: Seq<Token>, i: int)
    requires
        0 <= i < ts.len(),
        ts[i] !is Start,
        ts[i] !is End,
    ensures
        balanced(ts.subrange(i, i + 1)),
{
    assert(depth_at(ts, i + 1) == depth_at(ts, i));
    lemma_balanced(ts, i, i + 1);
}

pub proof fn lemma_balanced_join(ts: Seq<Token>, a: int, b: int, c: int)
    requires
        0 <= a <= b <= c <= ts.len(),
        balanced(ts.subrange(a, b)),
        balanced(ts.subrange(b, c)),
    ensures
        balanced(ts.subrange(a, c)),
{
    lemma_balanced(ts, a, b);
    lemma_balanced(ts, b, c);
    lemma_balanced(ts, a, c);
}

pub proof fn lemma_balanced_rest(ts: Seq<Token>, a: int, b: int, c: int)
    requires
        0 <= a <= b <= c <= ts.len(),
        balanced(ts.subrange(a, b)),
        balanced(ts.subrange(a, c)),
    ensures
        balanced(ts.subrange(b, c)),
{
    lemma_balanced(ts, a, b);
    lemma_balanced(ts, a, c);
    lemma_balanced(ts, b, c);
    assert forall|m: int| b <= m <= c implies #[trigger] depth_at(ts, m) >= depth_at(ts, b) by {
        assert(depth_at(ts, m) >= depth_at(ts, a));
    }
}

/// An element that starts in a balanced stretch, at its own level, ends in it.
pub proof fn lemma_close_inside(ts: Seq<Token>, i: int, p: int, end: int)
    requires
        0 <= i < p <= end <= ts.len(),
        balanced(ts.subrange(i, p)),
        ts[i] is Start,
    ensures
        close_of(ts, i, end) matches Some(j) && i < j < p && close_of(ts, i, p) == Some(j)
            && balanced(ts.subrange(j + 1, p)),
{
    lemma_balanced(ts, i, p);
    assert(depth_at(ts, i + 1) == depth_at(ts, i) + 1);
    if i + 1 == p {
        assert(depth_at(ts, p) == depth_at(ts, i));
    }
    lemma_close_exists(ts, i + 1, end, 1, p);
    lemma_close_bound(ts, i + 1, p, end, 1);
    let j = close_of(ts, i, end)->0;
    lemma_inner_balanced(ts, i, j, end);
    lemma_balanced_rest(ts, i, j + 1, p);
}

/// The children in two stretches, the first of which is balanced.
pub proof fn lemma_children_concat(ts: Seq<Token>, i: int, p: int, end: int, name: Seq<char>)
    requires
        0 <= i <= p <= end <= ts.len(),
        balanced(ts.subrange(i, p)),
    ensures
        child_ranges(ts, i, end, name) == child_ranges(ts, i, p, name) + child_ranges(
            ts,
            p,
            end,
            name,
        ),
    decreases p - i,
{
    if i == p {
        assert(child_ranges(ts, i, p, name) + child_ranges(ts, p, end, name) =~= child_ranges(
            ts,
            p,
            end,
            name,
        ));
    } else {
        lemma_balanced(ts, i, p);
        match ts[i] {
            Token::Start(n) => {
                lemma_close_inside(ts, i, p, end);
                let j = close_of(ts, i, end)->0;
                lemma_children_concat(ts, j + 1, p, end, name);
            },
            Token::End(_) => {
                assert(depth_at(ts, i + 1) == depth_at(ts, i) - 1);
                assert(depth_at(ts, i + 1) >= depth_at(ts, i));
            },
            _ => {
                lemma_flat_balanced(ts, i);
                lemma_balanced_rest(ts, i, i + 1, p);
                lemma_children_concat(ts, i + 1, p, end, name);
            },
        }
        assert(child_ranges(ts, i, end, name) =~= child_ranges(ts, i, p, name) + child_ranges(
            ts,
            p,
            end,
            name,
        ));
    }
}

pub proof fn lemma_children_shift(
    ts: Seq<Token>,
    us: Seq<Token>,
    i: int,
    end: int,
    b: int,
    name: Seq<char>,
)
    requires
        same_events(ts, us, i, end, b),
    ensures
        child_ranges(us, i + b, end + b, name) == shifted_ranges(
            child_ranges(ts, i, end, name),
            b,
        ),
    decreases end - i,
{
    if i < end {
        assert(ts[i] == us[i + b]);
        match ts[i] {
            Token::Start(n) => {
                lemma_close_shift(ts, us, i + 1, end, b, 1);
                lemma_close_from(ts, i + 1, end, 1);
                if let Some(j) = close_of(ts, i, end) {
                    lemma_children_shift(ts, us, j + 1, end, b, name);
                }
            },
            Token::End(_) => {},
            _ => {
                lemma_children_shift(ts, us, i + 1, end, b, name);
            },
        }
    }
    assert(child_ranges(us, i + b, end + b, name) =~= shifted_ranges(
        child_ranges(ts, i, end, name),
        b,
    ));
}

/// An edit inside a child leaves the children as they are, but for their place.
pub proof fn lemma_children_edit(
    ts: Seq<Token>,
    p: int,
    q: int,
    w: Seq<Token>,
    i: int,
    end: int,
    x: int,
    y: int,
    name: Seq<char>,
)
    requires
        0 <= i <= x < p <= q <= y < end <= ts.len(),
        balanced(ts.subrange(p, q)),
        balanced(w),
        balanced(ts.subrange(i, x)),
        ts[x] is Start,
        close_of(ts, x, end) == Some(y),
    ensures
        ({
            let b = w.len() - (q - p);
            child_ranges(edited(ts, p, q, w), i, end + b, name) == moved_ranges(
                child_ranges(ts, i, end, name),
                p,
                b,
            )
        }),
{
    let us = edited(ts, p, q, w);
    let b = w.len() - (q - p);
    assert(same_events(ts, us, i, x, 0));
    assert(us.subrange(i, x) =~= ts.subrange(i, x));
    lemma_children_concat(ts, i, x, end, name);
    lemma_children_concat(us, i, x, end + b, name);
    lemma_children_shift(ts, us, i, x, 0, name);
    lemma_close_edit(ts, p, q, w, x + 1, end, 1);
    assert(us[x] == ts[x]);
    assert(close_of(us, x, end + b) == Some(y + b));
    assert(same_events(ts, us, y + 1, end, b));
    lemma_children_shift(ts, us, y + 1, end, b, name);
    let before = child_ranges(ts, i, x, name);
    let after = child_ranges(ts, y + 1, end, name);
    assert forall|k: int| 0 <= k < before.len() implies (#[trigger] before[k]).0 < p && before[k].1
        < p by {
        lemma_children(ts, i, x, name, k);
    }
    assert forall|k: int| 0 <= k < after.len() implies (#[trigger] after[k]).0 >= p && after[k].1
        >= p by {
        lemma_children(ts, y + 1, end, name, k);
    }
    let n = ts[x]->Start_0;
    let own = if n == name {
        seq![(x, y)]
    } else {
        Seq::empty()
    };
    let own2 = if n == name {
        seq![(x, y + b)]
    } else {
        Seq::empty()
    };
    assert(child_ranges(ts, x, end, name) == own + after);
    assert(child_ranges(us, x, end + b, name) == own2 + shifted_ranges(after, b));
    assert(child_ranges(us, i, end + b, name) =~= moved_ranges(
        child_ranges(ts, i, end, name),
        p,
        b,
    ));
}

/// An edit between children replaces the children there.
pub proof fn lemma_children_replaced(
    ts: Seq<Token>,
    p: int,
    q: int,
    w: Seq<Token>,
    i: int,
    end: int,
    name: Seq<char>,
)
    requires
        0 <= i <= p <= q <= end <= ts.len(),
        balanced(ts.subrange(i, p)),
        balanced(ts.subrange(p, q)),
        balanced(w),
    ensures
        ({
            let b = w.len() - (q - p);
            &&& child_ranges(ts, i, end, name) == child_ranges(ts, i, p, name) + child_ranges(
                ts,
                p,
                q,
                name,
            ) + child_ranges(ts, q, end, name)
            &&& child_ranges(edited(ts, p, q, w), i, end + b, name) == child_ranges(ts, i, p, name)
                + shifted_ranges(child_ranges(w, 0, w.len() as int, name), p) + shifted_ranges(
                child_ranges(ts, q, end, name),
                b,
            )
        }),
{
    let us = edited(ts, p, q, w);
    let b = w.len() - (q - p);
    let m = p + w.len();
    lemma_children_concat(ts, i, p, end, name);
    lemma_children_concat(ts, p, q, end, name);
    assert(us.subrange(i, p) =~= ts.subrange(i, p));
    assert(us.subrange(p, m) =~= w);
    lemma_children_concat(us, i, p, end + b, name);
    lemma_children_concat(us, p, m, end + b, name);
    assert(same_events(ts, us, i, p, 0));
    lemma_children_shift(ts, us, i, p, 0, name);
    assert(shifted_ranges(child_ranges(ts, i, p, name), 0) =~= child_ranges(ts, i, p, name));
    assert(same_events(w, us, 0, w.len() as int, p));
    lemma_children_shift(w, us, 0, w.len() as int, p, name);
    assert(same_events(ts, us, q, end, b));
    lemma_children_shift(ts, us, q, end, b, name);
    assert(child_ranges(ts, i, end, name) =~= child_ranges(ts, i, p, name) + child_ranges(
        ts,
        p,
        q,
        name,
    ) + child_ranges(ts, q, end, name));
    assert(child_ranges(us, i, end + b, name) =~= child_ranges(ts, i, p, name) + shifted_ranges(
        child_ranges(w, 0, w.len() as int, name),
        p,
    ) + shifted_ranges(child_ranges(ts, q, end, name), b));
}

/// An edit inside the root element moves its end tag.
pub proof fn lemma_root_edit(
    ts: Seq<Token>,
    p: int,
    q: int,
    w: Seq<Token>,
    i: int,
    name: Seq<char>,
)
    requires
        0 <= i <= p <= q <= ts.len(),
        balanced(ts.subrange(p, q)),
        balanced(w),
        root_range(ts, i, name) matches Some((x, y)) && x < p && q <= y < ts.len(),
    ensures
        ({
            let (x, y) = root_range(ts, i, name)->0;
            root_range(edited(ts, p, q, w), i, name) == Some((x, y + w.len() - (q - p)))
        }),
    decreases ts.len() - i,
{
    let us = edited(ts, p, q, w);
    let b = w.len() - (q - p);
    lemma_root_start(ts, i, name);
    assert(us[i] == ts[i]);
    match ts[i] {
        Token::Start(n) => {
            lemma_close_edit(ts, p, q, w, i + 1, ts.len() as int, 1);
            let j = close_of(ts, i, ts.len() as int)->0;
            if n != name {
                lemma_root_start(ts, j + 1, name);
                lemma_root_edit(ts, p, q, w, j + 1, name);
            }
        },
        Token::Empty(n) => {
            if n != name {
                lemma_root_edit(ts, p, q, w, i + 1, name);
            }
        },
        Token::End(_) => {},
        _ => {
            lemma_root_edit(ts, p, q, w, i + 1, name);
        },
    }
}

/// The root element lies behind the events it is looked for from.
pub proof fn lemma_root_start(ts: Seq<Token>, i: int, name: Seq<char>)
    requires
        0 <= i,
    ensures
        root_range(ts, i, name) matches Some((x, y)) ==> {
            &&& i <= x <= y < ts.len()
            &&& x < y ==> ts[x] == Token::Start(name) && close_of(ts, x, ts.len() as int) == Some(y)
        },
    decreases ts.len() - i,
{
    if i < ts.len() {
        match ts[i] {
            Token::Start(n) => {
                lemma_close_from(ts, i + 1, ts.len() as int, 1);
                if let Some(j) = close_of(ts, i, ts.len() as int) {
                    if n != name {
                        lemma_root_start(ts, j + 1, name);
                    }
                }
            },
            Token::End(_) => {},
            _ => {
                lemma_root_start(ts, i + 1, name);
            },
        }
    }
}

// ---------- Edits further down ----------

/// Behind an edit as many elements are open as before.
pub proof fn lemma_depth_edit(ts: Seq<Token>, p: int, q: int, w: Seq<Token>, k: int)
    requires
        0 <= p <= q <= k <= ts.len(),
        balanced(ts.subrange(p, q)),
        balanced(w),
    ensures
        depth_at(edited(ts, p, q, w), k + w.len() - (q - p)) == depth_at(ts, k),
    decreases k - q,
{
    let us = edited(ts, p, q, w);
    let b = w.len() - (q - p);
    if k == q {
        lemma_depth_agree(ts, us, p);
        lemma_balanced(ts, p, q);
        assert(us.subrange(p, p + w.len()) =~= w);
        lemma_depth_part(us, p, p + w.len(), w.len() as int);
    } else {
        lemma_depth_edit(ts, p, q, w, k - 1);
        assert(us[k - 1 + b] == ts[k - 1]);
    }
}

/// The tags of an element that does not start in the edit.
pub proof fn lemma_close_moved(ts: Seq<Token>, p: int, q: int, w: Seq<Token>, j: int)
    requires
        0 <= p <= q <= ts.len(),
        0 <= j < ts.len(),
        j < p || j >= q,
        balanced(ts.subrange(p, q)),
        balanced(w),
    ensures
        ({
            let us = edited(ts, p, q, w);
            let b = w.len() - (q - p);
            &&& 0 <= moved(j, p, b) < us.len()
            &&& us[moved(j, p, b)] == ts[j]
            &&& depth_at(us, moved(j, p, b)) == depth_at(ts, j)
            &&& close_of(us, moved(j, p, b), us.len() as int) == match close_of(
                ts,
                j,
                ts.len() as int,
            ) {
                Some(y) => Some(moved(y, p, b)),
                None => None,
            }
            &&& close_of(ts, j, ts.len() as int) matches Some(y) ==> j < y < ts.len() && (y < p || y
                >= q)
        }),
{
    let us = edited(ts, p, q, w);
    let b = w.len() - (q - p);
    let n = ts.len() as int;
    assert(us.len() == n + b);
    lemma_close_from(ts, j + 1, n, 1);
    if j < p {
        lemma_depth_agree(ts, us, j);
        lemma_close_edit(ts, p, q, w, j + 1, n, 1);
    } else {
        lemma_depth_edit(ts, p, q, w, j);
        assert(same_events(ts, us, j + 1, n, b));
        lemma_close_shift(ts, us, j + 1, n, b, 1);
    }
}

/// An element less deep than an edit is outside of it, or around it.
pub proof fn lemma_clear_or_around(ts: Seq<Token>, p: int, q: int, x: int, y: int, end: int)
    requires
        0 <= p <= q <= ts.len(),
        balanced(ts.subrange(p, q)),
        0 <= x <= y < end <= ts.len(),
        depth_at(ts, x) < depth_at(ts, p),
        x < y ==> ts[x] is Start && close_of(ts, x, end) == Some(y),
    ensures
        y < p || x >= q || (x < p && q <= y),
{
    lemma_balanced(ts, p, q);
    if x < y {
        lemma_close_depth(ts, x + 1, end, 1);
        assert(depth_at(ts, x + 1) == depth_at(ts, x) + 1);
        assert(depth_at(ts, y + 1) < depth_at(ts, p));
    }
    if p <= x && x < q {
        assert(depth_at(ts, x) >= depth_at(ts, p));
    }
    if x < p && p <= y && y < q {
        assert(depth_at(ts, y + 1) >= depth_at(ts, p));
    }
}

/// An edit deeper than the children leaves them as they are, but for their place.
pub proof fn lemma_children_around(
    ts: Seq<Token>,
    p: int,
    q: int,
    w: Seq<Token>,
    i: int,
    end: int,
    name: Seq<char>,
)
    requires
        0 <= i <= p <= q <= end <= ts.len(),
        balanced(ts.subrange(p, q)),
        balanced(w),
        depth_at(ts, i) < depth_at(ts, p),
    ensures
        ({
            let b = w.len() - (q - p);
            child_ranges(edited(ts, p, q, w), i, end + b, name) == moved_ranges(
                child_ranges(ts, i, end, name),
                p,
                b,
            )
        }),
    decreases p - i,
{
    let us = edited(ts, p, q, w);
    let b = w.len() - (q - p);
    assert(i < p);
    assert(us[i] == ts[i]);
    match ts[i] {
        Token::Start(n) => {
            lemma_close_edit(ts, p, q, w, i + 1, end, 1);
            lemma_close_from(ts, i + 1, end, 1);
            if let Some(j) = close_of(ts, i, end) {
                lemma_close_depth(ts, i + 1, end, 1);
                assert(depth_at(ts, i + 1) == depth_at(ts, i) + 1);
                let rest = child_ranges(ts, j + 1, end, name);
                if j < p {
                    lemma_children_around(ts, p, q, w, j + 1, end, name);
                } else {
                    assert(same_events(ts, us, j + 1, end, b));
                    lemma_children_shift(ts, us, j + 1, end, b, name);
                    assert forall|k: int| 0 <= k < rest.len() implies (#[trigger] rest[k]).0 >= p
                        && rest[k].1 >= p by {
                        lemma_children(ts, j + 1, end, name, k);
                    }
                    assert(shifted_ranges(rest, b) =~= moved_ranges(rest, p, b));
                }
            }
        },
        Token::End(_) => {},
        _ => {
            assert(depth_at(ts, i + 1) == depth_at(ts, i));
            lemma_children_around(ts, p, q, w, i + 1, end, name);
        },
    }
    assert(child_ranges(us, i, end + b, name) =~= moved_ranges(
        child_ranges(ts, i, end, name),
        p,
        b,
    ));
}

/// The children of an element that is outside of an edit, or around it and the
/// edit is deeper than they are.
pub proof fn lemma_children_of(
    ts: Seq<Token>,
    p: int,
    q: int,
    w: Seq<Token>,
    x: int,
    y: int,
    name: Seq<char>,
)
    requires
        0 <= p <= q <= ts.len(),
        balanced(ts.subrange(p, q)),
        balanced(w),
        0 <= x <= y < ts.len(),
        y < p || x >= q || (x < p && q <= y && depth_at(ts, x + 1) < depth_at(ts, p)),
    ensures
        ({
            let b = w.len() - (q - p);
            child_ranges(edited(ts, p, q, w), moved(x, p, b) + 1, moved(y, p, b), name)
                == moved_ranges(child_ranges(ts, x + 1, y, name), p, b)
        }),
{
    let us = edited(ts, p, q, w);
    let b = w.len() - (q - p);
    let rs = child_ranges(ts, x + 1, y, name);
    if x < y {
        if x < p && q <= y {
            lemma_children_around(ts, p, q, w, x + 1, y, name);
        } else {
            let d = if y < p {
                0
            } else {
                b
            };
            assert(same_events(ts, us, x + 1, y, d));
            lemma_children_shift(ts, us, x + 1, y, d, name);
            assert forall|k: int| 0 <= k < rs.len() implies x < (#[trigger] rs[k]).0 <= rs[k].1
                < y by {
                lemma_children(ts, x + 1, y, name, k);
            }
            assert(shifted_ranges(rs, d) =~= moved_ranges(rs, p, b));
        }
    } else {
        assert(moved_ranges(rs, p, b) =~= rs);
    }
}

proof fn lemma_root_shift(ts: Seq<Token>, us: Seq<Token>, i: int, b: int, name: Seq<char>)
    requires
        same_events(ts, us, i, ts.len() as int, b),
        us.len() == ts.len() + b,
    ensures
        root_range(us, i + b, name) == match root_range(ts, i, name) {
            Some((x, y)) => Some((x + b, y + b)),
            None => None,
        },
    decreases ts.len() - i,
{
    if i < ts.len() {
        assert(ts[i] == us[i + b]);
        match ts[i] {
            Token::Start(n) => {
                lemma_close_shift(ts, us, i + 1, ts.len() as int, b, 1);
                lemma_close_from(ts, i + 1, ts.len() as int, 1);
                if let Some(j) = close_of(ts, i, ts.len() as int) {
                    lemma_root_shift(ts, us, j + 1, b, name);
                }
            },
            Token::End(_) => {},
            _ => {
                lemma_root_shift(ts, us, i + 1, b, name);
            },
        }
    }
}

/// An edit inside an element at the top level leaves the elements there as they
/// are, but for their place.
pub proof fn lemma_root_around(
    ts: Seq<Token>,
    p: int,
    q: int,
    w: Seq<Token>,
    i: int,
    name: Seq<char>,
)
    requires
        0 <= i <= p <= q <= ts.len(),
        balanced(ts.subrange(p, q)),
        balanced(w),
        depth_at(ts, i) < depth_at(ts, p),
    ensures
        ({
            let b = w.len() - (q - p);
            root_range(edited(ts, p, q, w), i, name) == match root_range(ts, i, name) {
                Some((x, y)) => Some((moved(x, p, b), moved(y, p, b))),
                None => None,
            }
        }),
    decreases p - i,
{
    let us = edited(ts, p, q, w);
    let b = w.len() - (q - p);
    let n = ts.len() as int;
    assert(i < p);
    assert(us[i] == ts[i]);
    assert(us.len() == n + b);
    match ts[i] {
        Token::Start(tag) => {
            lemma_close_edit(ts, p, q, w, i + 1, n, 1);
            lemma_close_from(ts, i + 1, n, 1);
            if let Some(j) = close_of(ts, i, n) {
                lemma_close_depth(ts, i + 1, n, 1);
                assert(depth_at(ts, i + 1) == depth_at(ts, i) + 1);
                if tag != name {
                    if j < p {
                        lemma_root_around(ts, p, q, w, j + 1, name);
                    } else {
                        assert(same_events(ts, us, j + 1, n, b));
                        lemma_root_shift(ts, us, j + 1, b, name);
                        lemma_root_start(ts, j + 1, name);
                    }
                }
            }
        },
        Token::End(_) => {},
        _ => {
            assert(depth_at(ts, i + 1) == depth_at(ts, i));
            lemma_root_around(ts, p, q, w, i + 1, name);
        },
    }
}

/// The root element is at the level it is looked for.
pub proof fn lemma_root_depth(ts: Seq<Token>, i: int, name: Seq<char>)
    requires
        0 <= i,
    ensures
        root_range(ts, i, name) matches Some((x, _)) ==> depth_at(ts, x) == depth_at(ts, i),
    decreases ts.len() - i,
{
    if i < ts.len() {
        let n = ts.len() as int;
        match ts[i] {
            Token::Start(tag) => {
                lemma_close_from(ts, i + 1, n, 1);
                lemma_close_depth(ts, i + 1, n, 1);
                assert(depth_at(ts, i + 1) == depth_at(ts, i) + 1);
                if let Some(j) = close_of(ts, i, n) {
                    if tag != name {
                        lemma_root_depth(ts, j + 1, name);
                    }
                }
            },
            Token::End(_) => {},
            _ => {
                assert(depth_at(ts, i + 1) == depth_at(ts, i));
                lemma_root_depth(ts, i + 1, name);
            },
        }
    }
}

// ---------- Text ----------

pub proof fn lemma_text_shift(ts: Seq<Token>, us: Seq<Token>, i: int, end: int, b: int)
    requires
        same_events(ts, us, i, end, b),
    ensures
        text_between(us, i + b, end + b) == text_between(ts, i, end),
    decreases end - i,
{
    if i < end {
        lemma_text_shift(ts, us, i, end - 1, b);
        assert(ts[end - 1] == us[end - 1 + b]);
    }
}

/// An element that is moved as a whole keeps its children and their text.
pub proof fn lemma_child_text_shift(
    ts: Seq<Token>,
    us: Seq<Token>,
    range: (int, int),
    b: int,
    name: Seq<char>,
)
    requires
        0 <= range.0,
        same_events(ts, us, range.0 + 1, range.1, b),
    ensures
        child_text(us, (range.0 + b, range.1 + b), name) == child_text(ts, range, name),
        child_texts(us, (range.0 + b, range.1 + b), name) == child_texts(ts, range, name),
{
    let found = child_ranges(ts, range.0 + 1, range.1, name);
    lemma_children_shift(ts, us, range.0 + 1, range.1, b, name);
    assert forall|k: int| 0 <= k < found.len() implies element_text(
        us,
        shifted_ranges(found, b)[k],
    ) == element_text(ts, #[trigger] found[k]) by {
        lemma_children(ts, range.0 + 1, range.1, name, k);
        let (x, y) = found[k];
        if x < y {
            assert(same_events(ts, us, x + 1, y, b));
            lemma_text_shift(ts, us, x + 1, y, b);
        }
    }
    assert(child_texts(us, (range.0 + b, range.1 + b), name) =~= child_texts(ts, range, name));
}

} // verus!
