//! A change touches its place in the document and nothing else: what stands outside
//! is the same text.

use crate::numbers::decimal;
use crate::pfusers::membership::{lemma_found, lemma_found_ascending};
use crate::pfusers::mutation::{
    first_closed, first_named, indent_of, is_blank, lemma_before, lemma_end_kept,
    lemma_trim_blank_prefix, member_line, member_ranges, mutated, named_element, positions, spliced,
    stripped, tokens_of, trim_blank_end, user_indent, Change,
};
use crate::pfusers::round_trip::{lemma_first_closed, lemma_first_named, lemma_named_element};
use crate::pfusers::rows::user_block;
use crate::tree::{close_of, lemma_close_from};
use crate::xml::{before, bom, lexemes, source, well_scanned, Lexeme};
use vstd::prelude::*;

verus! {

/// Where a change is made, from one character up to another: at the end of the
/// system or of a group, over a user, over a user and the white space in front of
/// it, or between the tags of the next uid.
pub open spec fn place_of(xml: Seq<char>, ls: Seq<Lexeme>, change: Change) -> (int, int) {
    let ts = tokens_of(ls);
    match change {
        Change::AppendUser(_) => {
            let (_, e) = first_closed(ts, 0, "system"@, 1)->0;
            let at = before(xml, ls, e).len() as int;
            (at, at)
        },
        Change::ReplaceUser(row) => {
            let (s, e) = named_element(ts, 0, "user"@, row.name)->0;
            (before(xml, ls, s).len() as int, before(xml, ls, e + 1).len() as int)
        },
        Change::RemoveUser(name) => {
            let (s, e) = named_element(ts, 0, "user"@, name)->0;
            (
                trim_blank_end(before(xml, ls, s)).len() as int,
                before(xml, ls, e + 1).len() as int,
            )
        },
        Change::AddGroupMember(group, _) => {
            let (_, e) = named_element(ts, 0, "group"@, group)->0;
            let at = before(xml, ls, e).len() as int;
            (at, at)
        },
        Change::SetNextUid(_) => {
            let i = first_named(ts, 0, "nextuid"@)->0;
            let j = close_of(ts, i, ts.len() as int)->0;
            (before(xml, ls, i + 1).len() as int, before(xml, ls, j).len() as int)
        },
        Change::RemoveGroupMembership(_) => (0, xml.len() as int),
    }
}

/// `new` is `xml` but for what stands from `s` up to `e`.
pub open spec fn same_outside(xml: Seq<char>, new: Seq<char>, s: int, e: int) -> bool {
    &&& 0 <= s <= e <= xml.len()
    &&& new.len() >= s + (xml.len() - e)
    &&& new.take(s) == xml.take(s)
    &&& new.skip(new.len() - (xml.len() - e)) == xml.skip(e)
}

/// What is cut out of a document: every member that holds the uid, and the white
/// space in front of it.
pub open spec fn member_cuts(xml: Seq<char>, ls: Seq<Lexeme>, uid: u32) -> Seq<(int, int)> {
    let rs = member_ranges(ls, 0, uid);
    Seq::new(
        rs.len(),
        |k: int|
            (
                trim_blank_end(before(xml, ls, rs[k].0)).len() as int,
                before(xml, ls, rs[k].1 + 1).len() as int,
            ),
    )
}

/// Cuts that stand one behind the other.
pub open spec fn in_order(xml: Seq<char>, cuts: Seq<(int, int)>) -> bool {
    &&& forall|k: int|
        0 <= k < cuts.len() ==> 0 <= (#[trigger] cuts[k]).0 <= cuts[k].1 <= xml.len()
    &&& forall|a: int, b: int|
        0 <= a < b < cuts.len() ==> (#[trigger] cuts[a]).1 <= (#[trigger] cuts[b]).0
}

/// The document up to `to`, without what is cut out of it.
pub open spec fn kept(xml: Seq<char>, cuts: Seq<(int, int)>, to: int) -> Seq<char>
    decreases cuts.len(),
{
    if cuts.len() == 0 {
        xml.take(to)
    } else {
        kept(xml, cuts.drop_last(), cuts.last().0) + xml.subrange(cuts.last().1, to)
    }
}

/// What a change leaves of a document: outside its place the text is the same. Of
/// the members of a uid, each is cut out together with the white space in front of
/// it, and all that stands between the cuts stays.
pub open spec fn keeps_outside(xml: Seq<char>, change: Change, new: Seq<char>) -> bool {
    let ls = lexemes(xml)->Ok_0;
    match change {
        Change::RemoveGroupMembership(uid) => {
            let cuts = member_cuts(xml, ls, uid);
            let rs = member_ranges(ls, 0, uid);
            &&& in_order(xml, cuts)
            &&& new == kept(xml, cuts, xml.len() as int)
            &&& forall|k: int, i: int|
                0 <= k < cuts.len() && cuts[k].0 <= i < before(xml, ls, rs[k].0).len()
                    ==> #[trigger] blank_at(xml, cuts[k], i)
        },
        _ => {
            let (s, e) = place_of(xml, ls, change);
            same_outside(xml, new, s, e)
        },
    }
}

/// In front of the member in a cut stands white space.
pub open spec fn blank_at(xml: Seq<char>, cut: (int, int), i: int) -> bool {
    cut.0 <= i < cut.1 && is_blank(xml[i])
}

// ---------- Proofs ----------

proof fn lemma_spliced(
    xml: Seq<char>,
    start: Seq<char>,
    end: Seq<char>,
    with: Seq<char>,
)
    requires
        start.is_prefix_of(xml),
        end.is_prefix_of(xml),
        start.len() <= end.len(),
    ensures
        same_outside(
            xml,
            spliced(xml, start, end, with),
            start.len() as int,
            end.len() as int,
        ),
{
    let new = spliced(xml, start, end, with);
    assert(new.take(start.len() as int) =~= xml.take(start.len() as int));
    assert(new.skip(new.len() - (xml.len() - end.len())) =~= xml.skip(end.len() as int));
}

proof fn lemma_trimmed_blank(s: Seq<char>, i: int)
    requires
        trim_blank_end(s).len() <= i < s.len(),
    ensures
        is_blank(s[i]),
    decreases s.len(),
{
    let p = |c: char| is_blank(c);
    if s.len() > 0 && p(s.last()) {
        if i < s.len() - 1 {
            lemma_trimmed_blank(s.drop_last(), i);
        }
    }
}

proof fn lemma_stripped(
    xml: Seq<char>,
    text: Seq<char>,
    ranges: Seq<(int, int)>,
    cuts: Seq<(int, int)>,
    to: int,
)
    requires
        in_order(xml, cuts),
        ranges.len() == cuts.len(),
        forall|k: int|
            0 <= k < cuts.len() ==> {
                &&& (#[trigger] cuts[k]).0 == trim_blank_end(xml.take(ranges[k].0)).len()
                &&& cuts[k].1 == ranges[k].1
                &&& 0 <= ranges[k].0 <= ranges[k].1
            },
        0 <= to <= text.len(),
        to <= xml.len(),
        text.take(to) == xml.take(to),
        cuts.len() > 0 ==> cuts.last().1 <= to,
    ensures
        stripped(text, ranges) == kept(xml, cuts, to) + text.skip(to),
    decreases ranges.len(),
{
    if ranges.len() == 0 {
        assert(text =~= xml.take(to) + text.skip(to));
    } else {
        let (s, e) = ranges.last();
        let (c, d) = cuts.last();
        assert(cuts[cuts.len() - 1] == (c, d));
        assert(ranges[ranges.len() - 1] == (s, e));
        assert(text.take(s) =~= text.take(to).take(s));
        assert(xml.take(s) =~= xml.take(to).take(s));
        lemma_trim_blank_prefix(xml.take(s));
        let front = trim_blank_end(xml.take(s));
        assert(front =~= xml.take(c));
        let next = front + text.skip(e);
        assert(next.take(c) =~= xml.take(c));
        let less = cuts.drop_last();
        if less.len() > 0 {
            assert(less.last() == cuts[cuts.len() - 2]);
        }
        assert forall|k: int| 0 <= k < less.len() implies {
            &&& (#[trigger] less[k]).0 == trim_blank_end(xml.take(ranges.drop_last()[k].0)).len()
            &&& less[k].1 == ranges.drop_last()[k].1
            &&& 0 <= ranges.drop_last()[k].0 <= ranges.drop_last()[k].1
        } by {
            assert(less[k] == cuts[k]);
            assert(ranges.drop_last()[k] == ranges[k]);
        }
        assert(in_order(xml, less)) by {
            assert forall|k: int| 0 <= k < less.len() implies 0 <= (#[trigger] less[k]).0 <= less[k].1
                <= xml.len() by {
                assert(less[k] == cuts[k]);
            }
            assert forall|a: int, b: int| 0 <= a < b < less.len() implies (#[trigger] less[a]).1 <= (
            #[trigger] less[b]).0 by {
                assert(less[a] == cuts[a] && less[b] == cuts[b]);
            }
        }
        lemma_stripped(xml, next, ranges.drop_last(), less, c);
        assert(next.skip(c) =~= text.skip(e));
        assert(text.skip(e) =~= xml.subrange(d, to) + text.skip(to)) by {
            assert(text.subrange(e, to) =~= text.take(to).subrange(e, to));
            assert(xml.subrange(e, to) =~= xml.take(to).subrange(e, to));
            assert(text.skip(e) =~= text.subrange(e, to) + text.skip(to));
        }
        assert(kept(xml, less, c) + (xml.subrange(d, to) + text.skip(to)) =~= kept(xml, cuts, to)
            + text.skip(to));
    }
}

proof fn lemma_members_cut(xml: Seq<char>, ls: Seq<Lexeme>, uid: u32)
    requires
        lexemes(xml) == Ok::<Seq<Lexeme>, Seq<char>>(ls),
        xml == bom(xml) + source(ls),
        well_scanned(ls),
    ensures
        keeps_outside(
            xml,
            Change::RemoveGroupMembership(uid),
            stripped(xml, positions(xml, ls, member_ranges(ls, 0, uid))),
        ),
{
    let rs = member_ranges(ls, 0, uid);
    let cuts = member_cuts(xml, ls, uid);
    let ranges = positions(xml, ls, rs);
    lemma_found_ascending(ls, 0, uid);
    assert forall|k: int| 0 <= k < cuts.len() implies {
        &&& 0 <= (#[trigger] cuts[k]).0 <= cuts[k].1 <= xml.len()
        &&& cuts[k].0 == trim_blank_end(xml.take(ranges[k].0)).len()
        &&& cuts[k].1 == ranges[k].1
        &&& 0 <= ranges[k].0 <= ranges[k].1
        &&& xml.take(ranges[k].0) == before(xml, ls, rs[k].0)
    } by {
        lemma_found(ls, 0, uid, k);
        let (x, y) = rs[k];
        lemma_before(xml, ls, x, y + 1);
        assert(xml.take(ranges[k].0) =~= before(xml, ls, x));
        lemma_trim_blank_prefix(before(xml, ls, x));
    }
    assert forall|a: int, b: int| 0 <= a < b < cuts.len() implies (#[trigger] cuts[a]).1 <= (
    #[trigger] cuts[b]).0 by {
        lemma_found(ls, 0, uid, a);
        lemma_found(ls, 0, uid, b);
        let y = rs[a].1;
        let x = rs[b].0;
        assert(rs[a].1 < rs[b].0);
        let ts = tokens_of(ls);
        lemma_close_from(ts, rs[a].0 + 1, ts.len() as int, 1);
        assert(ts[y] == ls[y].token);
        lemma_end_kept(xml, ls, y, x);
    }
    assert(xml.take(xml.len() as int) =~= xml);
    if cuts.len() > 0 {
        assert(cuts.last() == cuts[cuts.len() - 1]);
    }
    lemma_stripped(xml, xml, ranges, cuts, xml.len() as int);
    assert(xml.skip(xml.len() as int) =~= Seq::<char>::empty());
    let new = stripped(xml, ranges);
    assert(new =~= kept(xml, cuts, xml.len() as int));
    assert forall|k: int, i: int|
        0 <= k < cuts.len() && cuts[k].0 <= i < before(xml, ls, rs[k].0).len() implies #[trigger]
    blank_at(xml, cuts[k], i) by {
        let p = before(xml, ls, rs[k].0);
        lemma_found(ls, 0, uid, k);
        lemma_before(xml, ls, rs[k].0, rs[k].1 + 1);
        lemma_trimmed_blank(p, i);
        assert(xml.take(ranges[k].0) == p);
        assert(p[i] == xml[i]);
    }
}

/// A change touches its place in the document and nothing else.
pub proof fn bytes_outside_are_kept(xml: Seq<char>, ls: Seq<Lexeme>, change: Change)
    requires
        lexemes(xml) == Ok::<Seq<Lexeme>, Seq<char>>(ls),
        xml == bom(xml) + source(ls),
        well_scanned(ls),
        mutated(xml, change) is Ok,
    ensures
        keeps_outside(xml, change, mutated(xml, change)->Ok_0),
{
    let ts = tokens_of(ls);
    let n = ls.len() as int;
    match change {
        Change::AppendUser(row) => {
            lemma_first_closed(ts, 0, "system"@, 1);
            let (_, e) = first_closed(ts, 0, "system"@, 1)->0;
            lemma_before(xml, ls, e, n);
            let at = before(xml, ls, e);
            lemma_spliced(xml, at, at, user_block(row, user_indent(xml, ls)));
        },
        Change::ReplaceUser(row) => {
            lemma_named_element(ts, 0, "user"@, row.name);
            let (s, e) = named_element(ts, 0, "user"@, row.name)->0;
            lemma_before(xml, ls, s, e + 1);
            let start = before(xml, ls, s);
            lemma_spliced(xml, start, before(xml, ls, e + 1), user_block(row, indent_of(start)));
        },
        Change::RemoveUser(name) => {
            lemma_named_element(ts, 0, "user"@, name);
            let (s, e) = named_element(ts, 0, "user"@, name)->0;
            lemma_before(xml, ls, s, e + 1);
            let start = before(xml, ls, s);
            lemma_trim_blank_prefix(start);
            assert(trim_blank_end(start).is_prefix_of(xml)) by {
                assert(xml.take(trim_blank_end(start).len() as int) =~= trim_blank_end(start));
            }
            lemma_spliced(xml, trim_blank_end(start), before(xml, ls, e + 1), Seq::empty());
        },
        Change::AddGroupMember(group, uid) => {
            lemma_named_element(ts, 0, "group"@, group);
            let (_, e) = named_element(ts, 0, "group"@, group)->0;
            lemma_before(xml, ls, e, n);
            let at = before(xml, ls, e);
            lemma_spliced(xml, at, at, member_line(uid, indent_of(at)));
        },
        Change::RemoveGroupMembership(uid) => {
            lemma_members_cut(xml, ls, uid);
        },
        Change::SetNextUid(uid) => {
            lemma_first_named(ts, 0, "nextuid"@);
            let i = first_named(ts, 0, "nextuid"@)->0;
            lemma_close_from(ts, i + 1, ts.len() as int, 1);
            let j = close_of(ts, i, ts.len() as int)->0;
            lemma_before(xml, ls, i + 1, j);
            let value = decimal(uid as nat);
            lemma_spliced(xml, before(xml, ls, i + 1), before(xml, ls, j), value);
        },
    }
}

} // verus!
