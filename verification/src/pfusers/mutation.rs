//! Byte-precise changes to `config.xml`.
//!
//! A change is made by splicing: the text in front of the changed region and the
//! text behind it are taken over as they are, and only the region itself is
//! written anew.

use crate::numbers::{decimal, decimal_text};
use crate::pfusers::errors::{Failure, PfError};
use crate::pfusers::membership::{mutation_round_trip, reads_back};
use crate::pfusers::outcomes::{reads_back_all, scanned};
use crate::pfusers::preserved::{bytes_outside_are_kept, keeps_outside};
use crate::pfusers::rows::{generate_user_block, user_block, Row, UserRow};
use crate::text::{
    byte_len, chars_of, concat2, concat3, lemma_encode_concat, lemma_encode_injective,
    lemma_prefix_boundary, opt_text, same_text, split_text, string_of, trim, trim_end_by, trimmed,
};
use crate::tree::{
    as_ranges, close_of, collect_text, depth_at, find_close, lemma_close_depth, lemma_depth_bound,
    text_between, tokens,
};
use crate::xml::{
    before, bom, lemma_source_concat, lexemes, parse_with_positions, placed, source, well_placed,
    well_scanned, Lexeme, ParsedEvent, Token, XmlEvent,
};
use vstd::prelude::*;
use vstd::string::*;
use vstd::utf8::*;

verus! {

// ---------- Changes ----------

/// A change to the document.
pub enum Mutation {
    AppendUser(UserRow),
    ReplaceUser(UserRow),
    RemoveUser(String),
    AddGroupMember { group: String, uid: u32 },
    RemoveGroupMembership(u32),
    SetNextUid(u32),
}

/// A change, as text.
pub enum Change {
    AppendUser(Row),
    ReplaceUser(Row),
    RemoveUser(Seq<char>),
    AddGroupMember(Seq<char>, u32),
    RemoveGroupMembership(u32),
    SetNextUid(u32),
}

impl View for Mutation {
    type V = Change;

    open spec fn view(&self) -> Change {
        match *self {
            Mutation::AppendUser(row) => Change::AppendUser(row@),
            Mutation::ReplaceUser(row) => Change::ReplaceUser(row@),
            Mutation::RemoveUser(name) => Change::RemoveUser(name@),
            Mutation::AddGroupMember { group, uid } => Change::AddGroupMember(group@, uid),
            Mutation::RemoveGroupMembership(uid) => Change::RemoveGroupMembership(uid),
            Mutation::SetNextUid(n) => Change::SetNextUid(n),
        }
    }
}

// ---------- Places in the document ----------

/// What the events of a document say.
pub open spec fn tokens_of(ls: Seq<Lexeme>) -> Seq<Token> {
    Seq::new(ls.len(), |i: int| ls[i].token)
}

/// The first event from `i` on that starts an element `tag` inside `depth`
/// others.
pub open spec fn first_start(ts: Seq<Token>, i: int, tag: Seq<char>, depth: int) -> Option<int>
    decreases ts.len() - i,
{
    if i >= ts.len() {
        None
    } else if ts[i] == Token::Start(tag) && depth_at(ts, i) == depth {
        Some(i)
    } else {
        first_start(ts, i + 1, tag, depth)
    }
}

/// The first element `tag` from event `i` on that is inside `depth` others and
/// is closed.
pub open spec fn first_closed(ts: Seq<Token>, i: int, tag: Seq<char>, depth: int) -> Option<
    (int, int),
>
    decreases ts.len() - i,
{
    if i >= ts.len() {
        None
    } else if ts[i] == Token::Start(tag) && depth_at(ts, i) == depth && close_of(
        ts,
        i,
        ts.len() as int,
    ) is Some {
        Some((i, close_of(ts, i, ts.len() as int)->0))
    } else {
        first_closed(ts, i + 1, tag, depth)
    }
}

/// The character data of the first child `name` of the element at `(s, e)` that
/// is written with a start tag.
pub open spec fn started_child_text(ts: Seq<Token>, i: int, e: int, name: Seq<char>) -> Option<
    Seq<char>,
>
    decreases e - i,
{
    if i >= e {
        None
    } else {
        match ts[i] {
            Token::Start(n) => match close_of(ts, i, e) {
                Some(j) => if n == name {
                    Some(text_between(ts, i + 1, j))
                } else if i < j < e {
                    started_child_text(ts, j + 1, e, name)
                } else {
                    None
                },
                None => if n == name {
                    Some(text_between(ts, i + 1, e))
                } else {
                    None
                },
            },
            _ => started_child_text(ts, i + 1, e, name),
        }
    }
}

/// The first element `tag` from event `i` on, inside two others, whose child
/// `<name>` holds `name`.
pub open spec fn named_element(ts: Seq<Token>, i: int, tag: Seq<char>, name: Seq<char>) -> Option<
    (int, int),
>
    decreases ts.len() - i,
{
    match first_closed(ts, i, tag, 2) {
        Some((s, e)) => if i <= s && started_child_text(ts, s + 1, e, "name"@) == Some(name) {
            Some((s, e))
        } else if i <= s < ts.len() {
            named_element(ts, s + 1, tag, name)
        } else {
            None
        },
        None => None,
    }
}

/// The first element `name` of the document, at any depth.
pub open spec fn first_named(ts: Seq<Token>, i: int, name: Seq<char>) -> Option<int>
    decreases ts.len() - i,
{
    if i >= ts.len() {
        None
    } else if ts[i] == Token::Start(name) {
        Some(i)
    } else {
        first_named(ts, i + 1, name)
    }
}

/// The `<member>` elements, inside three others, that hold the uid, among the
/// events from `i` on.
pub open spec fn member_ranges(ls: Seq<Lexeme>, i: int, uid: u32) -> Seq<(int, int)>
    decreases ls.len() - i,
{
    let ts = tokens_of(ls);
    if i >= ls.len() {
        Seq::empty()
    } else {
        (if ts[i] == Token::Start("member"@) && depth_at(ts, i) == 3 {
            match close_of(ts, i, ts.len() as int) {
                Some(j) => if trimmed(source(ls.subrange(i + 1, j))) == decimal(uid as nat) {
                    seq![(i, j)]
                } else {
                    Seq::empty()
                },
                None => Seq::empty(),
            }
        } else {
            Seq::empty()
        }) + member_ranges(ls, i + 1, uid)
    }
}

/// White space between elements.
pub open spec fn is_blank(c: char) -> bool {
    c == ' ' || c == '\t' || c == '\r' || c == '\n'
}

/// `s` without the white space at its end.
pub open spec fn trim_blank_end(s: Seq<char>) -> Seq<char> {
    trim_end_by(s, |c: char| is_blank(c))
}

/// The characters of `s` behind its last line break.
pub open spec fn last_line(s: Seq<char>) -> Seq<char> {
    let tail = trim_end_by(s, |c: char| c != '\n');
    s.skip(tail.len() as int)
}

/// The spaces and tabs that `s` begins with.
pub open spec fn indentation(s: Seq<char>) -> Seq<char>
    decreases s.len(),
{
    if s.len() > 0 && (s[0] == ' ' || s[0] == '\t') {
        seq![s[0]] + indentation(s.drop_first())
    } else {
        Seq::empty()
    }
}

/// The indentation of the line that follows the text `s`.
pub open spec fn indent_of(s: Seq<char>) -> Seq<char> {
    indentation(last_line(s))
}

// ---------- What a change does ----------

/// `xml` with the text `with` in place of what stands behind `start` and in
/// front of the rest that follows `end`, where `start` and `end` are the texts
/// up to these places.
pub open spec fn spliced(xml: Seq<char>, start: Seq<char>, end: Seq<char>, with: Seq<char>) -> Seq<
    char,
> {
    start + with + xml.skip(end.len() as int)
}

/// The indentation for a new `<user>` block: that of the first user, or two tabs.
pub open spec fn user_indent(xml: Seq<char>, ls: Seq<Lexeme>) -> Seq<char> {
    match first_start(tokens_of(ls), 0, "user"@, 2) {
        Some(i) => indent_of(before(xml, ls, i)),
        None => "\t\t"@,
    }
}

/// The text of a group member, on a line of its own in front of the closing tag
/// of the group.
pub open spec fn member_line(uid: u32, indent: Seq<char>) -> Seq<char> {
    indent + "\t"@ + "<member>"@ + decimal(uid as nat) + "</member>\n"@ + indent
}

/// `xml` without the elements at `ranges`, nor the white space in front of them.
/// Ranges are positions in the text, in ascending order.
pub open spec fn stripped(xml: Seq<char>, ranges: Seq<(int, int)>) -> Seq<char>
    decreases ranges.len(),
{
    if ranges.len() == 0 {
        xml
    } else {
        let (s, e) = ranges.last();
        stripped(trim_blank_end(xml.take(s)) + xml.skip(e), ranges.drop_last())
    }
}

/// Event ranges as positions in the text.
pub open spec fn positions(xml: Seq<char>, ls: Seq<Lexeme>, ranges: Seq<(int, int)>) -> Seq<
    (int, int),
> {
    Seq::new(
        ranges.len(),
        |k: int|
            (
                before(xml, ls, ranges[k].0).len() as int,
                before(xml, ls, ranges[k].1 + 1).len() as int,
            ),
    )
}

/// The document `xml` with the change made, or why it cannot be made.
pub open spec fn mutated(xml: Seq<char>, change: Change) -> Result<Seq<char>, Failure> {
    match lexemes(xml) {
        Err(message) => Err(Failure::Xml(message)),
        Ok(ls) => changed(xml, ls, change),
    }
}

/// `mutated`, given the events of the document.
pub open spec fn changed(xml: Seq<char>, ls: Seq<Lexeme>, change: Change) -> Result<
    Seq<char>,
    Failure,
> {
    let ts = tokens_of(ls);
    match change {
        Change::AppendUser(row) => match first_closed(ts, 0, "system"@, 1) {
            None => Err(Failure::NoSystemEnd),
            Some((_, e)) => {
                let at = before(xml, ls, e);
                Ok(spliced(xml, at, at, user_block(row, user_indent(xml, ls))))
            },
        },
        Change::ReplaceUser(row) => match named_element(ts, 0, "user"@, row.name) {
            None => Err(Failure::UserNotInXml(row.name)),
            Some((s, e)) => {
                let start = before(xml, ls, s);
                Ok(spliced(xml, start, before(xml, ls, e + 1), user_block(row, indent_of(start))))
            },
        },
        Change::RemoveUser(name) => match named_element(ts, 0, "user"@, name) {
            None => Err(Failure::UserNotInXml(name)),
            Some((s, e)) => Ok(
                spliced(
                    xml,
                    trim_blank_end(before(xml, ls, s)),
                    before(xml, ls, e + 1),
                    Seq::empty(),
                ),
            ),
        },
        Change::AddGroupMember(group, uid) => match named_element(ts, 0, "group"@, group) {
            None => Err(Failure::GroupNotFound(group)),
            Some((_, e)) => {
                let at = before(xml, ls, e);
                Ok(spliced(xml, at, at, member_line(uid, indent_of(at))))
            },
        },
        Change::RemoveGroupMembership(uid) => Ok(
            stripped(xml, positions(xml, ls, member_ranges(ls, 0, uid))),
        ),
        Change::SetNextUid(n) => match first_named(ts, 0, "nextuid"@) {
            None => Err(Failure::ElementNotFound("nextuid"@)),
            Some(i) => match close_of(ts, i, ts.len() as int) {
                None => Err(Failure::Unclosed("nextuid"@)),
                Some(j) => Ok(
                    spliced(
                        xml,
                        before(xml, ls, i + 1),
                        before(xml, ls, j),
                        decimal(n as nat),
                    ),
                ),
            },
        },
    }
}

/// The changes made one after the other, each to the document that the one
/// before it left.
pub open spec fn mutated_all(xml: Seq<char>, changes: Seq<Change>) -> Result<Seq<char>, Failure>
    decreases changes.len(),
{
    if changes.len() == 0 {
        Ok(xml)
    } else {
        match mutated(xml, changes[0]) {
            Ok(next) => mutated_all(next, changes.drop_first()),
            Err(f) => Err(f),
        }
    }
}

// ---------- Facts about places ----------

proof fn lemma_prefix(a: Seq<char>, b: Seq<char>)
    ensures
        a.is_prefix_of(a + b),
{
    assert((a + b).take(a.len() as int) =~= a);
}

/// The text up to a later event continues the text up to an earlier one.
pub proof fn lemma_before(xml: Seq<char>, ls: Seq<Lexeme>, i: int, j: int)
    requires
        0 <= i <= j <= ls.len(),
        xml == bom(xml) + source(ls),
    ensures
        before(xml, ls, j) == before(xml, ls, i) + source(ls.subrange(i, j)),
        before(xml, ls, i).is_prefix_of(before(xml, ls, j)),
        before(xml, ls, i).is_prefix_of(xml),
        before(xml, ls, j).is_prefix_of(xml),
        before(xml, ls, ls.len() as int) == xml,
        xml == before(xml, ls, j) + source(ls.skip(j)),
{
    let a = before(xml, ls, i);
    let b = before(xml, ls, j);
    let mid = source(ls.subrange(i, j));
    let rest = source(ls.skip(j));
    assert(b == a + mid) by {
        assert(ls.take(j) =~= ls.take(i) + ls.subrange(i, j));
        lemma_source_concat(ls.take(i), ls.subrange(i, j));
        assert(b =~= a + mid);
    }
    assert(xml == b + rest) by {
        assert(ls =~= ls.take(j) + ls.skip(j));
        lemma_source_concat(ls.take(j), ls.skip(j));
        assert(xml =~= b + rest);
    }
    lemma_prefix(a, mid);
    lemma_prefix(b, rest);
    assert(a.is_prefix_of(xml)) by {
        assert(xml =~= a + (mid + rest));
        lemma_prefix(a, mid + rest);
    }
    assert(ls.take(ls.len() as int) =~= ls);
}

proof fn lemma_tokens(events: Seq<ParsedEvent>, xml: Seq<char>, ls: Seq<Lexeme>)
    requires
        placed(events, xml, ls),
    ensures
        tokens(events) == tokens_of(ls),
{
    assert forall|i: int| 0 <= i < ls.len() implies tokens(events)[i] == tokens_of(ls)[i] by {
        assert(events[i].event@ == ls[i].token);
    }
    assert(tokens(events) =~= tokens_of(ls));
}

// ---------- Finding places ----------

/// Where `</system>` starts: the first closed `<system>` one level below the
/// root.
fn system_close(events: &Vec<ParsedEvent>) -> (res: Option<usize>)
    ensures
        match (res, first_closed(tokens(events@), 0, "system"@, 1)) {
            (Some(j), Some((_, e))) => j == e && j < events.len(),
            (None, None) => true,
            _ => false,
        },
{
    match closed_element(events, 0, "system", 1) {
        Some((_, j)) => Some(j),
        None => None,
    }
}

/// The first closed element `tag` from event `from` on that is inside `depth`
/// others.
fn closed_element(events: &Vec<ParsedEvent>, from: usize, tag: &str, depth: i128) -> (res: Option<
    (usize, usize),
>)
    requires
        from <= events.len(),
    ensures
        match (res, first_closed(tokens(events@), from as int, tag@, depth as int)) {
            (Some((i, j)), Some((s, e))) => i == s && j == e && from <= i < j < events.len(),
            (None, None) => true,
            _ => false,
        },
{
    let ghost ts = tokens(events@);
    let mut at: i128 = depth_of(events, from);
    let mut i: usize = from;
    while i < events.len()
        invariant
            ts == tokens(events@),
            from <= i <= events.len(),
            at == depth_at(ts, i as int),
            first_closed(ts, from as int, tag@, depth as int) == first_closed(
                ts,
                i as int,
                tag@,
                depth as int,
            ),
        decreases events.len() - i,
    {
        proof {
            lemma_depth_bound(ts, i as int);
        }
        assert(ts[i as int] == events@[i as int].event@);
        match &events[i].event {
            XmlEvent::Start(n) => {
                if at == depth && same_text(n.as_str(), tag) {
                    if let Some(j) = find_close(events, i, events.len()) {
                        return Some((i, j));
                    }
                }
                at = at + 1;
            },
            XmlEvent::End(_) => {
                at = at - 1;
            },
            _ => {},
        }
        i = i + 1;
    }
    None
}

/// How many elements are open in front of event `i`.
fn depth_of(events: &Vec<ParsedEvent>, i: usize) -> (depth: i128)
    requires
        i <= events.len(),
    ensures
        depth == depth_at(tokens(events@), i as int),
{
    let ghost ts = tokens(events@);
    let mut depth: i128 = 0;
    for k in 0..i
        invariant
            ts == tokens(events@),
            i <= events.len(),
            depth == depth_at(ts, k as int),
    {
        proof {
            lemma_depth_bound(ts, k as int);
        }
        assert(ts[k as int] == events@[k as int].event@);
        match &events[k].event {
            XmlEvent::Start(_) => {
                depth = depth + 1;
            },
            XmlEvent::End(_) => {
                depth = depth - 1;
            },
            _ => {},
        }
    }
    depth
}

/// The first start tag of `<user>` inside two other elements.
fn first_user(events: &Vec<ParsedEvent>) -> (res: Option<usize>)
    ensures
        match (res, first_start(tokens(events@), 0, "user"@, 2)) {
            (Some(i), Some(k)) => i == k && i < events.len(),
            (None, None) => true,
            _ => false,
        },
{
    let ghost ts = tokens(events@);
    let mut depth: i128 = 0;
    let mut i: usize = 0;
    while i < events.len()
        invariant
            ts == tokens(events@),
            i <= events.len(),
            depth == depth_at(ts, i as int),
            first_start(ts, 0, "user"@, 2) == first_start(ts, i as int, "user"@, 2),
        decreases events.len() - i,
    {
        proof {
            lemma_depth_bound(ts, i as int);
        }
        assert(ts[i as int] == events@[i as int].event@);
        match &events[i].event {
            XmlEvent::Start(n) => {
                if depth == 2 && same_text(n.as_str(), "user") {
                    return Some(i);
                }
                depth = depth + 1;
            },
            XmlEvent::End(_) => {
                depth = depth - 1;
            },
            _ => {},
        }
        i = i + 1;
    }
    None
}

/// The character data of the first child `child_name`, written with a start tag,
/// of the element whose tags are events `parent_start` and `parent_end`.
fn read_child_text_within(
    events: &Vec<ParsedEvent>,
    parent_start: usize,
    parent_end: usize,
    child_name: &str,
) -> (res: Option<String>)
    requires
        parent_start < parent_end <= events.len(),
    ensures
        opt_text(res) == started_child_text(
            tokens(events@),
            parent_start + 1,
            parent_end as int,
            child_name@,
        ),
{
    let ghost ts = tokens(events@);
    let mut i: usize = parent_start + 1;
    while i < parent_end
        invariant
            ts == tokens(events@),
            parent_start < i <= parent_end <= events.len(),
            started_child_text(ts, parent_start + 1, parent_end as int, child_name@)
                == started_child_text(ts, i as int, parent_end as int, child_name@),
        decreases parent_end - i,
    {
        assert(ts[i as int] == events@[i as int].event@);
        match &events[i].event {
            XmlEvent::Start(n) => {
                let found = same_text(n.as_str(), child_name);
                match find_close(events, i, parent_end) {
                    Some(j) => {
                        if found {
                            return Some(collect_text(events, i + 1, j));
                        }
                        i = j + 1;
                    },
                    None => {
                        if found {
                            return Some(collect_text(events, i + 1, parent_end));
                        }
                        return None;
                    },
                }
            },
            _ => {
                i = i + 1;
            },
        }
    }
    None
}

/// The first element `tag`, inside two others, whose child `<name>` holds
/// `name`.
fn find_named(events: &Vec<ParsedEvent>, tag: &str, name: &str) -> (res: Option<(usize, usize)>)
    ensures
        match (res, named_element(tokens(events@), 0, tag@, name@)) {
            (Some((i, j)), Some((s, e))) => i == s && j == e && i < j < events.len(),
            (None, None) => true,
            _ => false,
        },
{
    let ghost ts = tokens(events@);
    let mut from: usize = 0;
    loop
        invariant
            ts == tokens(events@),
            from <= events.len(),
            named_element(ts, 0, tag@, name@) == named_element(ts, from as int, tag@, name@),
        decreases events.len() - from,
    {
        match closed_element(events, from, tag, 2) {
            Some((i, j)) => {
                if let Some(text) = read_child_text_within(events, i, j, "name") {
                    if same_text(text.as_str(), name) {
                        return Some((i, j));
                    }
                }
                from = i + 1;
            },
            None => {
                return None;
            },
        }
    }
}

/// Where an element that is looked for is.
enum Found {
    Nowhere,
    Unclosed,
    At(usize, usize),
}

/// The first element `name`, at any depth: its start tag and its end tag.
fn find_first_named(events: &Vec<ParsedEvent>, name: &str) -> (res: Found)
    ensures
        match first_named(tokens(events@), 0, name@) {
            None => res is Nowhere,
            Some(i) => match close_of(tokens(events@), i, events.len() as int) {
                None => res is Unclosed,
                Some(j) => res matches Found::At(s, e) && s == i && e == j && s < e < events.len(),
            },
        },
{
    let ghost ts = tokens(events@);
    let mut i: usize = 0;
    while i < events.len()
        invariant
            ts == tokens(events@),
            i <= events.len(),
            first_named(ts, 0, name@) == first_named(ts, i as int, name@),
        decreases events.len() - i,
    {
        assert(ts[i as int] == events@[i as int].event@);
        if let XmlEvent::Start(n) = &events[i].event {
            if same_text(n.as_str(), name) {
                return match find_close(events, i, events.len()) {
                    Some(j) => Found::At(i, j),
                    None => Found::Unclosed,
                };
            }
        }
        i = i + 1;
    }
    Found::Nowhere
}

/// The `<member>` elements inside three others that hold `uid`, whatever the
/// white space around it.
fn find_members(xml: &str, events: &Vec<ParsedEvent>, uid: u32, Ghost(ls): Ghost<Seq<Lexeme>>)
    -> (out: Vec<(usize, usize)>)
    requires
        placed(events@, xml@, ls),
    ensures
        as_ranges(out@) == member_ranges(ls, 0, uid),
        forall|k: int| 0 <= k < out.len() ==> (#[trigger] out@[k]).0 < out@[k].1 < events.len(),
        forall|k: int| 0 <= k < out.len() ==> ls[(#[trigger] out@[k]).1 as int].token is End,
        forall|k: int, m: int|
            0 <= k < m < out.len() ==> (#[trigger] out@[k]).1 < (#[trigger] out@[m]).0,
{
    let target = decimal_text(uid as u64);
    let ghost ts = tokens(events@);
    proof {
        lemma_tokens(events@, xml@, ls);
    }
    let mut out: Vec<(usize, usize)> = Vec::new();
    let mut depth: i128 = 0;
    let mut i: usize = 0;
    assert(as_ranges(out@) + member_ranges(ls, 0, uid) =~= member_ranges(ls, 0, uid));
    while i < events.len()
        invariant
            placed(events@, xml@, ls),
            ts == tokens(events@),
            ts == tokens_of(ls),
            target@ == decimal(uid as nat),
            i <= events.len(),
            depth == depth_at(ts, i as int),
            member_ranges(ls, 0, uid) == as_ranges(out@) + member_ranges(ls, i as int, uid),
            forall|k: int|
                0 <= k < out.len() ==> {
                    &&& (#[trigger] out@[k]).0 < out@[k].1 < events.len()
                    &&& out@[k].0 < i
                    &&& ts[out@[k].0 as int] is Start
                    &&& ts[out@[k].1 as int] is End
                    &&& depth_at(ts, out@[k].0 as int) == 3
                    &&& close_of(ts, out@[k].0 as int, ts.len() as int) == Some(out@[k].1 as int)
                },
            forall|k: int, m: int|
                0 <= k < m < out.len() ==> (#[trigger] out@[k]).1 < (#[trigger] out@[m]).0,
        decreases events.len() - i,
    {
        proof {
            lemma_depth_bound(ts, i as int);
        }
        assert(ts[i as int] == events@[i as int].event@);
        let ghost so_far = out@;
        match &events[i].event {
            XmlEvent::Start(n) => {
                if depth == 3 && same_text(n.as_str(), "member") {
                    if let Some(j) = find_close(events, i, events.len()) {
                        proof {
                            lemma_before(xml@, ls, i + 1, j as int);
                        }
                        let inner = text_of_range(
                            xml,
                            events[i].end,
                            events[j].start,
                            Ghost(before(xml@, ls, i + 1)),
                            Ghost(before(xml@, ls, j as int)),
                        );
                        assert(inner@ =~= source(ls.subrange(i + 1, j as int)));
                        let text = trim(inner.as_str());
                        if same_text(text.as_str(), target.as_str()) {
                            proof {
                                assert forall|k: int| 0 <= k < so_far.len() implies (
                                #[trigger] so_far[k]).1 < i by {
                                    let s = so_far[k].0 as int;
                                    lemma_close_depth(ts, s + 1, ts.len() as int, 1);
                                    assert(depth_at(ts, s + 1) == 4);
                                    assert(depth_at(ts, i as int) == 3);
                                }
                            }
                            out.push((i, j));
                            assert(as_ranges(out@) =~= as_ranges(so_far) + seq![
                                (i as int, j as int),
                            ]);
                        }
                    }
                }
                depth = depth + 1;
            },
            XmlEvent::End(_) => {
                depth = depth - 1;
            },
            _ => {},
        }
        assert(as_ranges(out@) + member_ranges(ls, i + 1, uid) =~= as_ranges(so_far)
            + member_ranges(ls, i as int, uid));
        i = i + 1;
    }
    assert(as_ranges(out@) =~= member_ranges(ls, 0, uid));
    out
}

/// The text of `xml` between two places, given by the texts up to them.
fn text_of_range(
    xml: &str,
    start: usize,
    end: usize,
    Ghost(p): Ghost<Seq<char>>,
    Ghost(q): Ghost<Seq<char>>,
) -> (out: String)
    requires
        p.is_prefix_of(q),
        q.is_prefix_of(xml@),
        start == byte_len(p),
        end == byte_len(q),
    ensures
        out@ == q.skip(p.len() as int),
{
    let (head, _) = split_text(xml, end, Ghost(q));
    let (_, inner) = split_text(head, start, Ghost(p));
    inner.to_owned()
}

/// `s` without the white space at its end.
fn without_blank_end(s: &str) -> (out: String)
    ensures
        out@ == trim_blank_end(s@),
{
    let chars = chars_of(s);
    let ghost p = |c: char| is_blank(c);
    let mut to: usize = chars.len();
    assert(s@.take(s@.len() as int) =~= s@);
    while to > 0 && (chars[to - 1] == ' ' || chars[to - 1] == '\t' || chars[to - 1] == '\r' || chars[to
        - 1] == '\n')
        invariant
            chars@ == s@,
            p == (|c: char| is_blank(c)),
            to <= chars.len(),
            trim_blank_end(s@) == trim_end_by(s@.take(to as int), p),
        decreases to,
    {
        assert(s@.take(to as int).drop_last() =~= s@.take(to - 1));
        to = to - 1;
    }
    assert(chars@.subrange(0, to as int) =~= s@.take(to as int));
    string_of(&chars[0..to])
}

/// The indentation of the line that follows the text `s`.
fn leading_indent_of(s: &str) -> (out: String)
    ensures
        out@ == indent_of(s@),
{
    let chars = chars_of(s);
    let ghost p = |c: char| c != '\n';
    let mut from: usize = chars.len();
    assert(s@.take(s@.len() as int) =~= s@);
    while from > 0 && chars[from - 1] != '\n'
        invariant
            chars@ == s@,
            p == (|c: char| c != '\n'),
            from <= chars.len(),
            trim_end_by(s@, p) == trim_end_by(s@.take(from as int), p),
        decreases from,
    {
        assert(s@.take(from as int).drop_last() =~= s@.take(from - 1));
        from = from - 1;
    }
    let ghost line = last_line(s@);
    assert(line =~= s@.skip(from as int));
    let mut to: usize = from;
    let mut out = String::new();
    assert(line.skip(0) =~= line);
    assert(out@ + indentation(line) =~= indentation(line));
    while to < chars.len() && (chars[to] == ' ' || chars[to] == '\t')
        invariant
            chars@ == s@,
            line == s@.skip(from as int),
            from <= to <= chars.len(),
            indentation(line) == out@ + indentation(line.skip(to - from)),
        decreases chars.len() - to,
    {
        let ghost rest = line.skip(to - from);
        assert(rest[0] == chars@[to as int]);
        assert(rest.drop_first() =~= line.skip(to - from + 1));
        let ghost so_far = out@;
        out.push(chars[to]);
        assert(so_far + indentation(rest) =~= out@ + indentation(rest.drop_first()));
        to = to + 1;
    }
    assert(to < chars.len() ==> line.skip(to - from)[0] == chars@[to as int]);
    assert(out@ =~= indentation(line));
    out
}

// ---------- Making the changes ----------

/// `src` with the bytes from `start` up to `end` replaced by those of `with`.
/// All other bytes are kept as they are.
pub fn splice(src: &str, start: usize, end: usize, with: &str) -> (out: String)
    requires
        start <= end,
        is_char_boundary(src.spec_bytes(), start as int),
        is_char_boundary(src.spec_bytes(), end as int),
    ensures
        encode_utf8(out@) == src.spec_bytes().subrange(0, start as int) + with.spec_bytes()
            + src.spec_bytes().subrange(end as int, src.spec_bytes().len() as int),
{
    let (head, _) = src.split_at(start);
    let (_, tail) = src.split_at(end);
    let mut out = concat2(head, with);
    out.append(tail);
    proof {
        lemma_encode_concat(head@, with@);
        lemma_encode_concat(head@ + with@, tail@);
    }
    out
}

/// `splice` between two places given by the texts up to them.
fn splice_text(
    xml: &str,
    start: usize,
    end: usize,
    with: &str,
    Ghost(p): Ghost<Seq<char>>,
    Ghost(q): Ghost<Seq<char>>,
) -> (out: String)
    requires
        p.is_prefix_of(q),
        q.is_prefix_of(xml@),
        start == byte_len(p),
        end == byte_len(q),
    ensures
        out@ == spliced(xml@, p, q, with@),
{
    proof {
        let after_p = xml@.skip(p.len() as int);
        let after_q = xml@.skip(q.len() as int);
        assert(p.is_prefix_of(xml@));
        assert(xml@ =~= p + after_p);
        assert(xml@ =~= q + after_q);
        lemma_prefix_boundary(p, after_p);
        lemma_prefix_boundary(q, after_q);
        assert(q =~= p + q.skip(p.len() as int));
        lemma_encode_concat(p, q.skip(p.len() as int));
    }
    let out = splice(xml, start, end, with);
    proof {
        let after_q = xml@.skip(q.len() as int);
        lemma_encode_concat(p, with@);
        lemma_encode_concat(p + with@, after_q);
        lemma_encode_injective(out@, p + with@ + after_q);
    }
    out
}

proof fn lemma_kept(a: Seq<char>, s: Seq<char>)
    requires
        a.is_prefix_of(s),
        a.len() > 0,
        !is_blank(a.last()),
    ensures
        a.is_prefix_of(trim_blank_end(s)),
    decreases s.len(),
{
    let p = |c: char| is_blank(c);
    if s.len() > 0 && p(s.last()) {
        assert(a.len() < s.len()) by {
            if a.len() == s.len() {
                assert(a =~= s);
            }
        }
        assert(a.is_prefix_of(s.drop_last()));
        lemma_kept(a, s.drop_last());
    }
}

pub proof fn lemma_trim_blank_prefix(s: Seq<char>)
    ensures
        trim_blank_end(s).is_prefix_of(s),
    decreases s.len(),
{
    let p = |c: char| is_blank(c);
    if s.len() > 0 && p(s.last()) {
        lemma_trim_blank_prefix(s.drop_last());
    }
}

/// Behind an end tag nothing is trimmed away that stands up to it.
pub proof fn lemma_end_kept(xml: Seq<char>, ls: Seq<Lexeme>, e: int, i: int)
    requires
        xml == bom(xml) + source(ls),
        well_scanned(ls),
        0 <= e < i <= ls.len(),
        ls[e].token is End,
    ensures
        before(xml, ls, e + 1).is_prefix_of(trim_blank_end(before(xml, ls, i))),
{
    reveal(well_placed);
    let prev = before(xml, ls, e + 1);
    lemma_before(xml, ls, e, e + 1);
    lemma_before(xml, ls, e + 1, i);
    assert(ls.subrange(e, e + 1) =~= seq![ls[e]]);
    assert(source(seq![ls[e]]) =~= ls[e].raw) by {
        reveal_with_fuel(source, 2);
        assert(seq![ls[e]].drop_last() =~= Seq::<Lexeme>::empty());
    }
    assert(ls[e].raw.last() == '>');
    assert(prev.last() == '>');
    lemma_kept(prev, before(xml, ls, i));
}

/// `text` without what stands between two places, given by the texts up to
/// them, nor the white space in front of it.
fn strip_one(
    text: &str,
    start: usize,
    end: usize,
    Ghost(p): Ghost<Seq<char>>,
    Ghost(q): Ghost<Seq<char>>,
) -> (out: String)
    requires
        p.is_prefix_of(q),
        q.is_prefix_of(text@),
        start == byte_len(p),
        end == byte_len(q),
    ensures
        out@ == trim_blank_end(p) + text@.skip(q.len() as int),
{
    assert(p.is_prefix_of(text@));
    let (head, _) = split_text(text, start, Ghost(p));
    let (_, tail) = split_text(text, end, Ghost(q));
    let kept = without_blank_end(head);
    concat2(kept.as_str(), tail)
}

proof fn lemma_prefix_kept(a: Seq<char>, t: Seq<char>, u: Seq<char>)
    requires
        a.is_prefix_of(t),
    ensures
        a.is_prefix_of(t + u),
{
    assert(t =~= a + t.skip(a.len() as int));
    assert(t + u =~= a + (t.skip(a.len() as int) + u));
    lemma_prefix(a, t.skip(a.len() as int) + u);
}

proof fn lemma_prefix_chain(a: Seq<char>, b: Seq<char>, c: Seq<char>)
    requires
        a.is_prefix_of(b),
        b.is_prefix_of(c),
    ensures
        a.is_prefix_of(c),
{
    assert(c.take(a.len() as int) =~= a);
}

proof fn lemma_stripped_step(
    text: Seq<char>,
    p: Seq<char>,
    q: Seq<char>,
    next: Seq<char>,
    all: Seq<(int, int)>,
    k: int,
)
    requires
        p.is_prefix_of(text),
        0 <= k < all.len(),
        all[k] == (p.len() as int, q.len() as int),
        next == trim_blank_end(p) + text.skip(q.len() as int),
    ensures
        stripped(text, all.take(k + 1)) == stripped(next, all.take(k)),
{
    assert(text.take(p.len() as int) =~= p);
    assert(all.take(k + 1).drop_last() =~= all.take(k));
    assert(all.take(k + 1).last() == all[k]);
}

/// Takes the group memberships of `uid` out of the document.
#[verifier::rlimit(40)]
#[verifier::spinoff_prover]
fn remove_members(
    xml: &str,
    events: &Vec<ParsedEvent>,
    uid: u32,
    Ghost(ls): Ghost<Seq<Lexeme>>,
) -> (out: String)
    requires
        placed(events@, xml@, ls),
        well_scanned(ls),
    ensures
        out@ == stripped(xml@, positions(xml@, ls, member_ranges(ls, 0, uid))),
{
    let members = find_members(xml, events, uid, Ghost(ls));
    let ghost all = positions(xml@, ls, as_ranges(members@));
    proof {
        lemma_tokens(events@, xml@, ls);
    }
    let mut out = xml.to_owned();
    let mut k: usize = members.len();
    assert(all.take(all.len() as int) =~= all);
    proof {
        if k > 0 {
            lemma_before(xml@, ls, members@[k - 1].1 + 1, ls.len() as int);
        }
    }
    while k > 0
        invariant
            xml@ == bom(xml@) + source(ls),
            events.len() == ls.len(),
            forall|i: int|
                0 <= i < ls.len() ==> {
                    &&& (#[trigger] events@[i]).start == byte_len(before(xml@, ls, i))
                    &&& events@[i].end == byte_len(before(xml@, ls, i + 1))
                },
            well_scanned(ls),
            k <= members.len(),
            all == positions(xml@, ls, as_ranges(members@)),
            forall|m: int|
                0 <= m < members.len() ==> (#[trigger] members@[m]).0 < members@[m].1 < events.len(),
            forall|m: int|
                0 <= m < members.len() ==> ls[(#[trigger] members@[m]).1 as int].token is End,
            forall|m: int, n: int|
                0 <= m < n < members.len() ==> (#[trigger] members@[m]).1 < (
                #[trigger] members@[n]).0,
            stripped(xml@, all) == stripped(out@, all.take(k as int)),
            k > 0 ==> before(xml@, ls, members@[k - 1].1 + 1).is_prefix_of(out@),
        decreases k,
    {
        let (i, j) = members[k - 1];
        let ghost p = before(xml@, ls, i as int);
        let ghost q = before(xml@, ls, j + 1);
        proof {
            lemma_before(xml@, ls, i as int, j + 1);
            assert(events@[i as int].start == byte_len(p));
            assert(events@[j as int].end == byte_len(q));
            assert(all[k - 1] == (p.len() as int, q.len() as int));
        }
        let next = strip_one(out.as_str(), events[i].start, events[j].end, Ghost(p), Ghost(q));
        proof {
            lemma_prefix_chain(p, q, out@);
            lemma_stripped_step(out@, p, q, next@, all, k - 1);
            if k > 1 {
                let e = members@[k - 2].1 as int;
                assert(e < i);
                lemma_end_kept(xml@, ls, e, i as int);
                lemma_prefix_kept(
                    before(xml@, ls, e + 1),
                    trim_blank_end(p),
                    out@.skip(q.len() as int),
                );
            }
        }
        k = k - 1;
        out = next;
    }
    assert(all.take(0) =~= Seq::<(int, int)>::empty());
    out
}

/// Makes one change to the document. What is changed is read back from the
/// result, and nothing else is read differently; outside the place of the change
/// the text is the same.
pub fn apply_mutation(xml: &str, m: &Mutation) -> (res: Result<String, PfError>)
    ensures
        agrees(res, mutated(xml@, m@)),
        res is Ok ==> scanned(xml@),
        res matches Ok(new) ==> reads_back(xml@, m@, new@),
        res matches Ok(new) ==> keeps_outside(xml@, m@, new@),
{
    let events = match parse_with_positions(xml) {
        Ok(events) => events,
        Err(message) => {
            return Err(PfError::Xml(message));
        },
    };
    let ghost ls = lexemes(xml@)->Ok_0;
    proof {
        reveal(scanned);
        lemma_tokens(events@, xml@, ls);
        if mutated(xml@, m@) is Ok {
            mutation_round_trip(xml@, ls, m@);
            bytes_outside_are_kept(xml@, ls, m@);
        }
    }
    match m {
        Mutation::AppendUser(row) => append_user(xml, &events, row, Ghost(ls)),
        Mutation::ReplaceUser(row) => replace_user(xml, &events, row, Ghost(ls)),
        Mutation::RemoveUser(name) => remove_user(xml, &events, name.as_str(), Ghost(ls)),
        Mutation::AddGroupMember { group, uid } => {
            add_group_member(xml, &events, group.as_str(), *uid, Ghost(ls))
        },
        Mutation::RemoveGroupMembership(uid) => Ok(remove_members(xml, &events, *uid, Ghost(ls))),
        Mutation::SetNextUid(n) => set_next_uid(xml, &events, *n, Ghost(ls)),
    }
}

/// A result of a change is what `changed` says.
pub open spec fn agrees(res: Result<String, PfError>, outcome: Result<Seq<char>, Failure>) -> bool {
    match (outcome, res) {
        (Ok(t), Ok(s)) => s@ == t,
        (Err(f), Err(e)) => e@ == f,
        _ => false,
    }
}

fn append_user(
    xml: &str,
    events: &Vec<ParsedEvent>,
    row: &UserRow,
    Ghost(ls): Ghost<Seq<Lexeme>>,
) -> (res: Result<String, PfError>)
    requires
        placed(events@, xml@, ls),
        tokens(events@) == tokens_of(ls),
    ensures
        agrees(res, changed(xml@, ls, Change::AppendUser(row@))),
{
    let e = match system_close(events) {
        Some(e) => e,
        None => {
            return Err(PfError::NoSystemEnd);
        },
    };
    let ghost at = before(xml@, ls, e as int);
    let indent = detect_user_indent(xml, events, Ghost(ls));
    let block = generate_user_block(row, indent.as_str());
    proof {
        lemma_before(xml@, ls, e as int, ls.len() as int);
        assert(events@[e as int].start == byte_len(at));
    }
    Ok(splice_text(xml, events[e].start, events[e].start, block.as_str(), Ghost(at), Ghost(at)))
}

/// The indentation for a new `<user>` block: that of the first user, or two tabs.
fn detect_user_indent(xml: &str, events: &Vec<ParsedEvent>, Ghost(ls): Ghost<Seq<Lexeme>>) -> (out:
    String)
    requires
        placed(events@, xml@, ls),
        tokens(events@) == tokens_of(ls),
    ensures
        out@ == user_indent(xml@, ls),
{
    match first_user(events) {
        Some(i) => {
            proof {
                lemma_before(xml@, ls, i as int, ls.len() as int);
                assert(events@[i as int].start == byte_len(before(xml@, ls, i as int)));
            }
            let (head, _) = split_text(xml, events[i].start, Ghost(before(xml@, ls, i as int)));
            leading_indent_of(head)
        },
        None => "\t\t".to_owned(),
    }
}

fn replace_user(
    xml: &str,
    events: &Vec<ParsedEvent>,
    row: &UserRow,
    Ghost(ls): Ghost<Seq<Lexeme>>,
) -> (res: Result<String, PfError>)
    requires
        placed(events@, xml@, ls),
        tokens(events@) == tokens_of(ls),
    ensures
        agrees(res, changed(xml@, ls, Change::ReplaceUser(row@))),
{
    let (i, j) = match find_named(events, "user", row.name.as_str()) {
        Some(range) => range,
        None => {
            return Err(PfError::UserNotInXml(row.name.clone()));
        },
    };
    let ghost p = before(xml@, ls, i as int);
    let ghost q = before(xml@, ls, j + 1);
    proof {
        lemma_before(xml@, ls, i as int, j + 1);
        assert(events@[i as int].start == byte_len(p));
        assert(events@[j as int].end == byte_len(q));
    }
    let (head, _) = split_text(xml, events[i].start, Ghost(p));
    let indent = leading_indent_of(head);
    let block = generate_user_block(row, indent.as_str());
    Ok(splice_text(xml, events[i].start, events[j].end, block.as_str(), Ghost(p), Ghost(q)))
}

fn remove_user(
    xml: &str,
    events: &Vec<ParsedEvent>,
    name: &str,
    Ghost(ls): Ghost<Seq<Lexeme>>,
) -> (res: Result<String, PfError>)
    requires
        placed(events@, xml@, ls),
        tokens(events@) == tokens_of(ls),
    ensures
        agrees(res, changed(xml@, ls, Change::RemoveUser(name@))),
{
    let (i, j) = match find_named(events, "user", name) {
        Some(range) => range,
        None => {
            return Err(PfError::UserNotInXml(name.to_owned()));
        },
    };
    let ghost p = before(xml@, ls, i as int);
    let ghost q = before(xml@, ls, j + 1);
    proof {
        lemma_before(xml@, ls, i as int, j + 1);
        assert(events@[i as int].start == byte_len(p));
        assert(events@[j as int].end == byte_len(q));
    }
    let (head, _) = split_text(xml, events[i].start, Ghost(p));
    let kept = without_blank_end(head);
    let start: usize = kept.as_str().as_bytes().len();
    proof {
        lemma_trim_blank_prefix(p);
        assert(kept@.is_prefix_of(q)) by {
            assert(forall|x: int| 0 <= x < kept@.len() ==> kept@[x] == p[x]);
            assert(q.take(kept@.len() as int) =~= kept@);
        }
        reveal_strlit("");
        assert(""@ =~= Seq::<char>::empty());
    }
    Ok(splice_text(xml, start, events[j].end, "", Ghost(kept@), Ghost(q)))
}

fn add_group_member(
    xml: &str,
    events: &Vec<ParsedEvent>,
    group: &str,
    uid: u32,
    Ghost(ls): Ghost<Seq<Lexeme>>,
) -> (res: Result<String, PfError>)
    requires
        placed(events@, xml@, ls),
        tokens(events@) == tokens_of(ls),
    ensures
        agrees(res, changed(xml@, ls, Change::AddGroupMember(group@, uid))),
{
    let (_, e) = match find_named(events, "group", group) {
        Some(range) => range,
        None => {
            return Err(PfError::GroupNotFound(group.to_owned()));
        },
    };
    let ghost at = before(xml@, ls, e as int);
    proof {
        lemma_before(xml@, ls, e as int, ls.len() as int);
        assert(events@[e as int].start == byte_len(at));
    }
    let (head, _) = split_text(xml, events[e].start, Ghost(at));
    let indent = leading_indent_of(head);
    let number = decimal_text(uid as u64);
    let mut chunk = concat3(indent.as_str(), "\t", "<member>");
    chunk.append(number.as_str());
    chunk.append("</member>\n");
    chunk.append(indent.as_str());
    Ok(splice_text(xml, events[e].start, events[e].start, chunk.as_str(), Ghost(at), Ghost(at)))
}

fn set_next_uid(
    xml: &str,
    events: &Vec<ParsedEvent>,
    n: u32,
    Ghost(ls): Ghost<Seq<Lexeme>>,
) -> (res: Result<String, PfError>)
    requires
        placed(events@, xml@, ls),
        tokens(events@) == tokens_of(ls),
    ensures
        agrees(res, changed(xml@, ls, Change::SetNextUid(n))),
{
    match find_first_named(events, "nextuid") {
        Found::Nowhere => Err(PfError::ElementNotFound("nextuid".to_owned())),
        Found::Unclosed => Err(PfError::Unclosed("nextuid".to_owned())),
        Found::At(i, j) => {
            let ghost p = before(xml@, ls, i + 1);
            let ghost q = before(xml@, ls, j as int);
            proof {
                lemma_before(xml@, ls, i + 1, j as int);
                assert(events@[i as int].end == byte_len(p));
                assert(events@[j as int].start == byte_len(q));
            }
            let number = decimal_text(n as u64);
            Ok(
                splice_text(
                    xml,
                    events[i].end,
                    events[j].start,
                    number.as_str(),
                    Ghost(p),
                    Ghost(q),
                ),
            )
        },
    }
}

/// What a list of changes says.
pub open spec fn changes(mutations: Seq<Mutation>) -> Seq<Change> {
    Seq::new(mutations.len(), |i: int| mutations[i]@)
}

/// Makes the changes one after the other, and stops at the first that fails. Each
/// of them is read back.
pub fn apply_mutations(xml: String, mutations: Vec<Mutation>) -> (res: Result<String, PfError>)
    ensures
        agrees(res, mutated_all(xml@, changes(mutations@))),
        res matches Ok(new) ==> reads_back_all(xml@, changes(mutations@), new@),
{
    let ghost all = changes(mutations@);
    let mut text = xml;
    let mut i: usize = 0;
    assert(all.skip(0) =~= all);
    while i < mutations.len()
        invariant
            all == changes(mutations@),
            i <= mutations.len(),
            mutated_all(xml@, all) == mutated_all(text@, all.skip(i as int)),
            forall|last: Seq<char>| #[trigger]
                reads_back_all(text@, all.skip(i as int), last) ==> reads_back_all(xml@, all, last),
        decreases mutations.len() - i,
    {
        assert(all.skip(i as int)[0] == mutations@[i as int]@);
        assert(all.skip(i as int).drop_first() =~= all.skip(i + 1));
        match apply_mutation(text.as_str(), &mutations[i]) {
            Ok(next) => {
                proof {
                    assert forall|last: Seq<char>| #[trigger]
                        reads_back_all(next@, all.skip(i + 1), last) implies reads_back_all(
                        xml@,
                        all,
                        last,
                    ) by {
                        assert(reads_back_all(text@, all.skip(i as int), last));
                    }
                }
                text = next;
            },
            Err(e) => {
                return Err(e);
            },
        }
        i = i + 1;
    }
    assert(all.skip(i as int) =~= Seq::empty());
    assert(reads_back_all(text@, all.skip(i as int), text@));
    Ok(text)
}

} // verus!
