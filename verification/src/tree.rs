//! Elements of a document, read off its flat list of events.

use crate::text::same_text;
use crate::xml::{ParsedEvent, Token, XmlEvent};
use vstd::prelude::*;
use vstd::string::*;

verus! {

// ---------- Character data ----------

/// The predefined entity that `s` begins with: the character it stands for, and
/// the number of characters it is written with.
pub open spec fn entity_at(s: Seq<char>) -> Option<(char, nat)> {
    if s.len() >= 4 && s[1] == 'l' && s[2] == 't' && s[3] == ';' {
        Some(('<', 4))
    } else if s.len() >= 4 && s[1] == 'g' && s[2] == 't' && s[3] == ';' {
        Some(('>', 4))
    } else if s.len() >= 5 && s[1] == 'a' && s[2] == 'm' && s[3] == 'p' && s[4] == ';' {
        Some(('&', 5))
    } else if s.len() >= 6 && s[1] == 'a' && s[2] == 'p' && s[3] == 'o' && s[4] == 's' && s[5]
        == ';' {
        Some(('\'', 6))
    } else if s.len() >= 6 && s[1] == 'q' && s[2] == 'u' && s[3] == 'o' && s[4] == 't' && s[5]
        == ';' {
        Some(('"', 6))
    } else {
        None
    }
}

/// `raw` with the predefined entities replaced by what they stand for, where
/// every `&` in it begins one of them.
pub open spec fn plain_unescape(raw: Seq<char>) -> Option<Seq<char>>
    decreases raw.len(),
{
    if raw.len() == 0 {
        Some(Seq::empty())
    } else if raw[0] != '&' {
        match plain_unescape(raw.drop_first()) {
            Some(rest) => Some(seq![raw[0]] + rest),
            None => None,
        }
    } else {
        match entity_at(raw) {
            Some((c, n)) => match plain_unescape(raw.skip(n as int)) {
                Some(rest) => Some(seq![c] + rest),
                None => None,
            },
            None => None,
        }
    }
}

/// What `quick_xml` makes of text with other references in it: character
/// references, and `&` that begin no reference.
pub uninterp spec fn unescaped(raw: Seq<char>) -> Option<Seq<char>>;

/// `quick_xml::escape::unescape`: the text that `raw` is written for, `None`
/// where `raw` is not well formed. The five predefined entities stand for their
/// characters; for text with other references nothing more is said of
/// `unescaped`.
#[verifier::external_body]
fn unescape(raw: &str) -> (res: Option<String>)
    ensures
        match unescaped(raw@) {
            Some(s) => res is Some && res->0@ == s,
            None => res is None,
        },
        plain_unescape(raw@) is Some ==> res is Some && res->0@ == plain_unescape(raw@)->0,
{
    match quick_xml::escape::unescape(raw) {
        Ok(text) => Some(text.into_owned()),
        Err(_) => None,
    }
}

/// The text that `raw` stands for; malformed text counts as empty.
pub open spec fn text_value(raw: Seq<char>) -> Seq<char> {
    match plain_unescape(raw) {
        Some(s) => s,
        None => match unescaped(raw) {
            Some(s) => s,
            None => Seq::empty(),
        },
    }
}

/// The character data of one event.
pub open spec fn content(token: Token) -> Seq<char> {
    match token {
        Token::Text(raw) => text_value(raw),
        Token::CData(s) => s,
        _ => Seq::empty(),
    }
}

/// The character data of the events from `from` up to `to`.
pub open spec fn text_between(ts: Seq<Token>, from: int, to: int) -> Seq<char>
    decreases to - from,
{
    if from >= to {
        Seq::empty()
    } else {
        text_between(ts, from, to - 1) + content(ts[to - 1])
    }
}

// ---------- Nesting ----------

/// What the events say, without their place.
pub open spec fn tokens(events: Seq<ParsedEvent>) -> Seq<Token> {
    Seq::new(events.len(), |i: int| events[i].event@)
}

/// Where, from event `i` on and in front of `end`, the innermost of `depth` open
/// elements and all around it have been closed: the index of the last of these
/// end tags.
pub open spec fn close_from(ts: Seq<Token>, i: int, end: int, depth: nat) -> Option<int>
    decreases end - i,
{
    if i >= end {
        None
    } else {
        match ts[i] {
            Token::Start(_) => close_from(ts, i + 1, end, depth + 1),
            Token::End(_) => if depth <= 1 {
                Some(i)
            } else {
                close_from(ts, i + 1, end, (depth - 1) as nat)
            },
            _ => close_from(ts, i + 1, end, depth),
        }
    }
}

/// The end tag, in front of `end`, of the element that starts at `i`.
pub open spec fn close_of(ts: Seq<Token>, i: int, end: int) -> Option<int> {
    close_from(ts, i + 1, end, 1)
}

/// How many elements are open in front of event `i`.
pub open spec fn depth_at(ts: Seq<Token>, i: int) -> int
    decreases i,
{
    if i <= 0 {
        0
    } else {
        depth_at(ts, i - 1) + match ts[i - 1] {
            Token::Start(_) => 1int,
            Token::End(_) => -1,
            _ => 0,
        }
    }
}

pub proof fn lemma_close_from(ts: Seq<Token>, i: int, end: int, depth: nat)
    ensures
        close_from(ts, i, end, depth) matches Some(j) ==> i <= j < end && ts[j] is End,
    decreases end - i,
{
    if i < end {
        match ts[i] {
            Token::Start(_) => lemma_close_from(ts, i + 1, end, depth + 1),
            Token::End(_) => if depth > 1 {
                lemma_close_from(ts, i + 1, end, (depth - 1) as nat);
            },
            _ => lemma_close_from(ts, i + 1, end, depth),
        }
    }
}

/// Between an element's tags more elements are open than in front of it, and
/// behind its end tag as many.
pub proof fn lemma_close_depth(ts: Seq<Token>, i: int, end: int, d: nat)
    requires
        d >= 1,
        0 <= i,
    ensures
        close_from(ts, i, end, d) matches Some(j) ==> {
            &&& depth_at(ts, j + 1) == depth_at(ts, i) - d
            &&& forall|m: int| i <= m <= j ==> #[trigger] depth_at(ts, m) > depth_at(ts, i) - d
        },
    decreases end - i,
{
    if i < end {
        let next = match ts[i] {
            Token::Start(_) => d + 1,
            Token::End(_) => (d - 1) as nat,
            _ => d,
        };
        if next >= 1 {
            lemma_close_depth(ts, i + 1, end, next);
            if let Some(j) = close_from(ts, i, end, d) {
                lemma_close_from(ts, i + 1, end, next);
                assert forall|m: int| i <= m <= j implies #[trigger] depth_at(ts, m) > depth_at(ts, i)
                    - d by {
                    if m > i {
                        assert(i + 1 <= m);
                    }
                }
            }
        }
    }
}

pub proof fn lemma_depth_bound(ts: Seq<Token>, i: int)
    requires
        0 <= i,
    ensures
        -i <= depth_at(ts, i) <= i,
    decreases i,
{
    if i > 0 {
        lemma_depth_bound(ts, i - 1);
    }
}

/// The end tag of the element that starts at `i`, if it stands in front of `end`.
pub fn find_close(events: &Vec<ParsedEvent>, i: usize, end: usize) -> (res: Option<usize>)
    requires
        i < end <= events.len(),
    ensures
        match (res, close_of(tokens(events@), i as int, end as int)) {
            (Some(j), Some(k)) => j == k && i < j < end && tokens(events@)[k] is End,
            (None, None) => true,
            _ => false,
        },
{
    let ghost ts = tokens(events@);
    let mut depth: usize = 1;
    let mut k: usize = i + 1;
    while k < end
        invariant
            ts == tokens(events@),
            i < k <= end <= events.len(),
            1 <= depth <= k - i,
            close_of(ts, i as int, end as int) == close_from(ts, k as int, end as int, depth as nat),
        decreases end - k,
    {
        assert(ts[k as int] == events@[k as int].event@);
        match &events[k].event {
            XmlEvent::Start(_) => {
                depth = depth + 1;
            },
            XmlEvent::End(_) => {
                if depth == 1 {
                    return Some(k);
                }
                depth = depth - 1;
            },
            _ => {},
        }
        k = k + 1;
    }
    None
}

/// The character data of the events from `from` up to `to`.
pub fn collect_text(events: &Vec<ParsedEvent>, from: usize, to: usize) -> (out: String)
    requires
        from <= to <= events.len(),
    ensures
        out@ == text_between(tokens(events@), from as int, to as int),
{
    let ghost ts = tokens(events@);
    let mut out = String::new();
    let mut k: usize = from;
    while k < to
        invariant
            ts == tokens(events@),
            from <= k <= to <= events.len(),
            out@ == text_between(ts, from as int, k as int),
        decreases to - k,
    {
        assert(ts[k as int] == events@[k as int].event@);
        let ghost before = out@;
        match &events[k].event {
            XmlEvent::Text(raw) => {
                if let Some(s) = unescape(raw.as_str()) {
                    out.append(s.as_str());
                }
            },
            XmlEvent::CData(s) => {
                out.append(s.as_str());
            },
            _ => {},
        }
        assert(out@ =~= before + content(ts[k as int]));
        k = k + 1;
    }
    out
}

// ---------- Elements ----------

/// The elements named `name` among the events from `i` up to `end`, leaving out
/// those inside other elements: the indices of their start and end tags, which
/// are the same for an empty element.
pub open spec fn child_ranges(ts: Seq<Token>, i: int, end: int, name: Seq<char>) -> Seq<(int, int)>
    decreases end - i,
{
    if i >= end {
        Seq::empty()
    } else {
        match ts[i] {
            Token::Start(n) => match close_of(ts, i, end) {
                Some(j) => if i < j < end {
                    (if n == name {
                        seq![(i, j)]
                    } else {
                        Seq::empty()
                    }) + child_ranges(ts, j + 1, end, name)
                } else {
                    Seq::empty()
                },
                None => Seq::empty(),
            },
            Token::Empty(n) => (if n == name {
                seq![(i, i)]
            } else {
                Seq::empty()
            }) + child_ranges(ts, i + 1, end, name),
            Token::End(_) => Seq::empty(),
            _ => child_ranges(ts, i + 1, end, name),
        }
    }
}

/// The character data of the element whose tags are at `range`.
pub open spec fn element_text(ts: Seq<Token>, range: (int, int)) -> Seq<char> {
    text_between(ts, range.0 + 1, range.1)
}

/// The character data of the first child named `name` of the element at `range`.
pub open spec fn child_text(ts: Seq<Token>, range: (int, int), name: Seq<char>) -> Option<
    Seq<char>,
> {
    let found = child_ranges(ts, range.0 + 1, range.1, name);
    if found.len() == 0 {
        None
    } else {
        Some(element_text(ts, found[0]))
    }
}

/// The character data of every child named `name` of the element at `range`.
pub open spec fn child_texts(ts: Seq<Token>, range: (int, int), name: Seq<char>) -> Seq<Seq<char>> {
    let found = child_ranges(ts, range.0 + 1, range.1, name);
    Seq::new(found.len(), |k: int| element_text(ts, found[k]))
}

/// The first element named `name` at the top level of the document.
pub open spec fn root_range(ts: Seq<Token>, i: int, name: Seq<char>) -> Option<(int, int)>
    decreases ts.len() - i,
{
    if i >= ts.len() {
        None
    } else {
        match ts[i] {
            Token::Start(n) => match close_of(ts, i, ts.len() as int) {
                Some(j) => if n == name {
                    Some((i, j))
                } else if i < j < ts.len() {
                    root_range(ts, j + 1, name)
                } else {
                    None
                },
                None => None,
            },
            Token::Empty(n) => if n == name {
                Some((i, i))
            } else {
                root_range(ts, i + 1, name)
            },
            Token::End(_) => None,
            _ => root_range(ts, i + 1, name),
        }
    }
}

/// Index ranges as numbers.
pub open spec fn as_ranges(v: Seq<(usize, usize)>) -> Seq<(int, int)> {
    Seq::new(v.len(), |k: int| (v[k].0 as int, v[k].1 as int))
}

/// All elements named `name` among the events from `from` up to `to`, leaving
/// out those inside other elements.
pub fn find_elements(events: &Vec<ParsedEvent>, from: usize, to: usize, name: &str) -> (out: Vec<
    (usize, usize),
>)
    requires
        from <= to <= events.len(),
    ensures
        as_ranges(out@) == child_ranges(tokens(events@), from as int, to as int, name@),
        forall|k: int| 0 <= k < out.len() ==> from <= (#[trigger] out@[k]).0 <= out@[k].1 < to,
{
    let ghost ts = tokens(events@);
    let mut out: Vec<(usize, usize)> = Vec::new();
    let mut i: usize = from;
    while i < to
        invariant
            ts == tokens(events@),
            from <= i <= to <= events.len(),
            child_ranges(ts, from as int, to as int, name@) == as_ranges(out@) + child_ranges(
                ts,
                i as int,
                to as int,
                name@,
            ),
            forall|k: int| 0 <= k < out.len() ==> from <= (#[trigger] out@[k]).0 <= out@[k].1 < to,
        ensures
            child_ranges(ts, from as int, to as int, name@) == as_ranges(out@),
        decreases to - i,
    {
        assert(ts[i as int] == events@[i as int].event@);
        let ghost before = out@;
        match &events[i].event {
            XmlEvent::Start(n) => {
                match find_close(events, i, to) {
                    Some(j) => {
                        if same_text(n.as_str(), name) {
                            out.push((i, j));
                            assert(as_ranges(out@) =~= as_ranges(before) + seq![(i as int, j as int)]);
                        }
                        i = j + 1;
                    },
                    None => {
                        break ;
                    },
                }
            },
            XmlEvent::Empty(n) => {
                if same_text(n.as_str(), name) {
                    out.push((i, i));
                    assert(as_ranges(out@) =~= as_ranges(before) + seq![(i as int, i as int)]);
                }
                i = i + 1;
            },
            XmlEvent::End(_) => {
                break ;
            },
            _ => {
                i = i + 1;
            },
        }
        assert(child_ranges(ts, from as int, to as int, name@) =~= as_ranges(out@) + child_ranges(
            ts,
            i as int,
            to as int,
            name@,
        ));
    }
    out
}

// ---------- Laws ----------

/// The text of an element is the text of its parts, one behind the other: what stands
/// between marks as it is, other text with its references replaced; tags and comments
/// add nothing.
pub proof fn texts_are_joined(ts: Seq<Token>, from: int, at: int, to: int)
    requires
        from <= at <= to,
    ensures
        text_between(ts, from, to) == text_between(ts, from, at) + text_between(ts, at, to),
        at < to ==> text_between(ts, at, at + 1) == match ts[at] {
            Token::CData(s) => s,
            Token::Text(raw) => text_value(raw),
            _ => Seq::<char>::empty(),
        },
        text_between(ts, at, at).len() == 0,
    decreases to - at,
{
    if at < to {
        texts_are_joined(ts, from, at, to - 1);
        assert(text_between(ts, from, to) =~= text_between(ts, from, at) + text_between(
            ts,
            at,
            to,
        ));
        reveal_with_fuel(text_between, 2);
        assert(text_between(ts, at, at + 1) =~= content(ts[at]));
    } else {
        assert(text_between(ts, from, at) + text_between(ts, at, to) =~= text_between(
            ts,
            from,
            at,
        ));
    }
}

/// Text without references stands for itself.
pub proof fn plain_text_stands_for_itself(s: Seq<char>)
    requires
        !s.contains('&'),
    ensures
        text_value(s) == s,
        plain_unescape(s) == Some(s),
    decreases s.len(),
{
    if s.len() > 0 {
        let rest = s.drop_first();
        assert(s[0] != '&') by {
            assert(s.contains(s[0]));
        }
        assert forall|i: int| 0 <= i < rest.len() implies rest[i] != '&' by {
            assert(s.contains(s[i + 1]));
        }
        plain_text_stands_for_itself(rest);
        assert(seq![s[0]] + rest =~= s);
    } else {
        assert(s =~= Seq::<char>::empty());
    }
}


} // verus!
