//! Reading users and groups out of `config.xml`.

use crate::numbers::{parse_u32, parsed_number};
use crate::pfusers::errors::{Failure, PfError};
use crate::pfusers::mutation::tokens_of;
use crate::pfusers::rows::{Row, UserRow};
use crate::text::{opt_text, same_text, texts};
use crate::tree::{
    as_ranges, child_ranges, child_text, child_texts, collect_text, element_text, find_close,
    find_elements, root_range, tokens,
};
use crate::xml::{lexemes, parse_with_positions, ParsedEvent, Token, XmlEvent};
use std::collections::HashMap;
use vstd::prelude::*;
use vstd::string::*;

verus! {

broadcast use vstd::std_specs::hash::group_hash_axioms;

/// A parsed document.
pub struct Doc {
    pub events: Vec<ParsedEvent>,
}

impl View for Doc {
    type V = Seq<Token>;

    open spec fn view(&self) -> Seq<Token> {
        tokens(self.events@)
    }
}

/// The events of a document, or why it is not XML.
pub open spec fn parsed(xml: Seq<char>) -> Result<Seq<Token>, Failure> {
    match lexemes(xml) {
        Ok(ls) => Ok(tokens_of(ls)),
        Err(message) => Err(Failure::Xml(message)),
    }
}

/// The `<system>` element under the root `<pfsense>`.
pub open spec fn system_range(ts: Seq<Token>) -> Result<(int, int), Failure> {
    match root_range(ts, 0, "pfsense"@) {
        None => Err(Failure::NoRoot),
        Some(root) => {
            let found = child_ranges(ts, root.0 + 1, root.1, "system"@);
            if found.len() == 0 {
                Err(Failure::NoSystem)
            } else {
                Ok(found[0])
            }
        },
    }
}

/// `text`, or nothing where the element is missing.
pub open spec fn or_empty(text: Option<Seq<char>>) -> Seq<char> {
    match text {
        Some(s) => s,
        None => Seq::empty(),
    }
}

/// The user written in the element at `range`.
#[verifier::opaque]
pub open spec fn user_at(ts: Seq<Token>, range: (int, int)) -> Result<Row, Failure> {
    let name = or_empty(child_text(ts, range, "name"@));
    let uid_text = or_empty(child_text(ts, range, "uid"@));
    match parsed_number(uid_text, u32::MAX as nat) {
        None => Err(Failure::BadUid(uid_text, name)),
        Some(uid) => Ok(
            Row {
                name,
                descr: or_empty(child_text(ts, range, "descr"@)),
                uid: uid as u32,
                scope: match child_text(ts, range, "scope"@) {
                    Some(s) => s,
                    None => "user"@,
                },
                expires: match child_text(ts, range, "expires"@) {
                    Some(s) => if s.len() == 0 {
                        None
                    } else {
                        Some(s)
                    },
                    None => None,
                },
                disabled: child_ranges(ts, range.0 + 1, range.1, "disabled"@).len() > 0,
                priv_list: child_texts(ts, range, "priv"@),
                authorized_keys_b64: or_empty(child_text(ts, range, "authorizedkeys"@)),
                bcrypt_hash: child_text(ts, range, "bcrypt-hash"@),
                sha512_hash: child_text(ts, range, "sha512-hash"@),
                md5_hash: child_text(ts, range, "md5-hash"@),
            },
        ),
    }
}

/// The users written in the elements at `ranges`, or the first failure among
/// them.
pub open spec fn users_at(ts: Seq<Token>, ranges: Seq<(int, int)>) -> Result<Seq<Row>, Failure>
    decreases ranges.len(),
{
    if ranges.len() == 0 {
        Ok(Seq::empty())
    } else {
        match users_at(ts, ranges.drop_last()) {
            Err(f) => Err(f),
            Ok(rows) => match user_at(ts, ranges.last()) {
                Err(f) => Err(f),
                Ok(row) => Ok(rows.push(row)),
            },
        }
    }
}

/// All users of the document.
pub open spec fn users(ts: Seq<Token>) -> Result<Seq<Row>, Failure> {
    match system_range(ts) {
        Err(f) => Err(f),
        Ok(sys) => users_at(ts, child_ranges(ts, sys.0 + 1, sys.1, "user"@)),
    }
}

/// The first user among `rows` with the given name.
pub open spec fn row_named(rows: Seq<Row>, name: Seq<char>) -> Option<Row>
    decreases rows.len(),
{
    if rows.len() == 0 {
        None
    } else if rows[0].name == name {
        Some(rows[0])
    } else {
        row_named(rows.drop_first(), name)
    }
}

/// The user of the document with the given name.
pub open spec fn user_named(ts: Seq<Token>, name: Seq<char>) -> Option<Row> {
    match users(ts) {
        Ok(rows) => row_named(rows, name),
        Err(_) => None,
    }
}

/// The uid that the next user will get.
pub open spec fn next_uid_of(ts: Seq<Token>) -> Result<u32, Failure> {
    match system_range(ts) {
        Err(f) => Err(f),
        Ok(sys) => match child_text(ts, sys, "nextuid"@) {
            None => Err(Failure::NoNextUid),
            Some(text) => match parsed_number(text, u32::MAX as nat) {
                None => Err(Failure::BadNextUid(text)),
                Some(n) => Ok(n as u32),
            },
        },
    }
}

/// The memberships that the members `members` of the group `group` make; a
/// member that is no uid makes none.
pub open spec fn memberships_in(group: Seq<char>, members: Seq<Seq<char>>) -> Seq<(u32, Seq<char>)>
    decreases members.len(),
{
    if members.len() == 0 {
        Seq::empty()
    } else {
        let rest = memberships_in(group, members.drop_last());
        match parsed_number(members.last(), u32::MAX as nat) {
            Some(uid) => rest.push((uid as u32, group)),
            None => rest,
        }
    }
}

/// The memberships in the groups at `ranges`, in the order of the document.
pub open spec fn memberships_at(ts: Seq<Token>, ranges: Seq<(int, int)>) -> Seq<(u32, Seq<char>)>
    decreases ranges.len(),
{
    if ranges.len() == 0 {
        Seq::empty()
    } else {
        memberships_at(ts, ranges.drop_last()) + memberships_in(
            or_empty(child_text(ts, ranges.last(), "name"@)),
            child_texts(ts, ranges.last(), "member"@),
        )
    }
}

/// All group memberships of the document.
pub open spec fn memberships(ts: Seq<Token>) -> Result<Seq<(u32, Seq<char>)>, Failure> {
    match system_range(ts) {
        Err(f) => Err(f),
        Ok(sys) => Ok(memberships_at(ts, child_ranges(ts, sys.0 + 1, sys.1, "group"@))),
    }
}

/// The groups of a user, among the given memberships.
pub open spec fn groups_of(list: Seq<(u32, Seq<char>)>, uid: u32) -> Seq<Seq<char>>
    decreases list.len(),
{
    if list.len() == 0 {
        Seq::empty()
    } else if list.last().0 == uid {
        groups_of(list.drop_last(), uid).push(list.last().1)
    } else {
        groups_of(list.drop_last(), uid)
    }
}

/// `groups` lists for every uid the groups that it has in `list`.
pub open spec fn grouped(groups: Map<u32, Vec<String>>, list: Seq<(u32, Seq<char>)>) -> bool {
    forall|uid: u32|
        if #[trigger] groups.contains_key(uid) {
            texts(groups[uid]@) == groups_of(list, uid)
        } else {
            groups_of(list, uid).len() == 0
        }
}

/// The rows of a list of users.
pub open spec fn rows(v: Seq<UserRow>) -> Seq<Row> {
    Seq::new(v.len(), |i: int| v[i]@)
}

impl Doc {
    pub fn parse(xml: &str) -> (res: Result<Doc, PfError>)
        ensures
            match (parsed(xml@), res) {
                (Ok(ts), Ok(doc)) => doc@ == ts,
                (Err(f), Err(e)) => e@ == f,
                _ => false,
            },
    {
        match parse_with_positions(xml) {
            Ok(events) => {
                let doc = Doc { events };
                proof {
                    let ls = lexemes(xml@)->Ok_0;
                    assert forall|i: int| 0 <= i < ls.len() implies doc@[i] == tokens_of(ls)[i] by {
                        assert(events@[i].event@ == ls[i].token);
                    }
                    assert(doc@ =~= tokens_of(ls));
                }
                Ok(doc)
            },
            Err(message) => Err(PfError::Xml(message)),
        }
    }

    /// The first element `name` at the top level.
    fn element_range(&self, name: &str) -> (res: Option<(usize, usize)>)
        ensures
            match (res, root_range(self@, 0, name@)) {
                (Some((i, j)), Some((s, e))) => i == s && j == e && i <= j < self.events.len(),
                (None, None) => true,
                _ => false,
            },
    {
        let ghost ts = self@;
        let mut i: usize = 0;
        while i < self.events.len()
            invariant
                ts == tokens(self.events@),
                i <= self.events.len(),
                root_range(ts, 0, name@) == root_range(ts, i as int, name@),
            decreases self.events.len() - i,
        {
            assert(ts[i as int] == self.events@[i as int].event@);
            match &self.events[i].event {
                XmlEvent::Start(n) => {
                    match find_close(&self.events, i, self.events.len()) {
                        Some(j) => {
                            if same_text(n.as_str(), name) {
                                return Some((i, j));
                            }
                            i = j + 1;
                        },
                        None => {
                            return None;
                        },
                    }
                },
                XmlEvent::Empty(n) => {
                    if same_text(n.as_str(), name) {
                        return Some((i, i));
                    }
                    i = i + 1;
                },
                XmlEvent::End(_) => {
                    return None;
                },
                _ => {
                    i = i + 1;
                },
            }
        }
        None
    }

    /// All children `name` of the element at `(start, end)`.
    fn child_ranges(&self, start: usize, end: usize, name: &str) -> (out: Vec<(usize, usize)>)
        requires
            start <= end < self.events.len(),
        ensures
            as_ranges(out@) == child_ranges(self@, start + 1, end as int, name@),
            forall|k: int| 0 <= k < out.len() ==> start < (#[trigger] out@[k]).0 <= out@[k].1 < end,
    {
        if start == end {
            let out: Vec<(usize, usize)> = Vec::new();
            assert(as_ranges(out@) =~= Seq::<(int, int)>::empty());
            return out;
        }
        find_elements(&self.events, start + 1, end, name)
    }

    /// The character data of the element at `(start, end)`.
    fn text_at(&self, start: usize, end: usize) -> (out: String)
        requires
            start <= end < self.events.len(),
        ensures
            out@ == element_text(self@, (start as int, end as int)),
    {
        if start == end {
            return String::new();
        }
        collect_text(&self.events, start + 1, end)
    }

    /// The character data of the first child `name` of the element at
    /// `(start, end)`.
    fn child_text(&self, start: usize, end: usize, name: &str) -> (res: Option<String>)
        requires
            start <= end < self.events.len(),
        ensures
            opt_text(res) == child_text(self@, (start as int, end as int), name@),
    {
        let found = self.child_ranges(start, end, name);
        let ghost ranges = child_ranges(self@, start + 1, end as int, name@);
        assert(as_ranges(found@).len() == found.len());
        if found.len() == 0 {
            return None;
        }
        let (s, e) = found[0];
        assert(as_ranges(found@)[0] == (s as int, e as int));
        Some(self.text_at(s, e))
    }

    /// The character data of every child `name` of the element at `(start, end)`.
    fn child_texts(&self, start: usize, end: usize, name: &str) -> (out: Vec<String>)
        requires
            start <= end < self.events.len(),
        ensures
            texts(out@) == child_texts(self@, (start as int, end as int), name@),
    {
        let found = self.child_ranges(start, end, name);
        let ghost want = child_texts(self@, (start as int, end as int), name@);
        assert(as_ranges(found@).len() == found.len());
        let mut out: Vec<String> = Vec::new();
        for k in 0..found.len()
            invariant
                start <= end < self.events.len(),
                as_ranges(found@) == child_ranges(self@, start + 1, end as int, name@),
                forall|k: int|
                    0 <= k < found.len() ==> start < (#[trigger] found@[k]).0 <= found@[k].1 < end,
                want == child_texts(self@, (start as int, end as int), name@),
                want.len() == found.len(),
                out.len() == k,
                forall|m: int| 0 <= m < k ==> (#[trigger] out@[m])@ == want[m],
        {
            let (s, e) = found[k];
            assert(as_ranges(found@)[k as int] == (s as int, e as int));
            out.push(self.text_at(s, e));
        }
        assert(texts(out@) =~= want);
        out
    }

    /// The character data of the first child `name`, or nothing.
    fn child_text_or_empty(&self, start: usize, end: usize, name: &str) -> (out: String)
        requires
            start <= end < self.events.len(),
        ensures
            out@ == or_empty(child_text(self@, (start as int, end as int), name@)),
    {
        match self.child_text(start, end, name) {
            Some(s) => s,
            None => String::new(),
        }
    }

    fn find_system_range(&self) -> (res: Result<(usize, usize), PfError>)
        ensures
            match (system_range(self@), res) {
                (Ok((s, e)), Ok((i, j))) => i == s && j == e && i <= j < self.events.len(),
                (Err(f), Err(e)) => e@ == f,
                _ => false,
            },
    {
        let (root_start, root_end) = match self.element_range("pfsense") {
            Some(range) => range,
            None => {
                return Err(PfError::NoRoot);
            },
        };
        let found = self.child_ranges(root_start, root_end, "system");
        assert(as_ranges(found@).len() == found.len());
        if found.len() == 0 {
            return Err(PfError::NoSystem);
        }
        assert(as_ranges(found@)[0] == (found@[0].0 as int, found@[0].1 as int));
        Ok(found[0])
    }

    /// All users of the document.
    pub fn list_users(&self) -> (res: Result<Vec<UserRow>, PfError>)
        ensures
            match (users(self@), res) {
                (Ok(list), Ok(out)) => rows(out@) == list,
                (Err(f), Err(e)) => e@ == f,
                _ => false,
            },
    {
        let (sys_start, sys_end) = match self.find_system_range() {
            Ok(range) => range,
            Err(e) => {
                return Err(e);
            },
        };
        let found = self.child_ranges(sys_start, sys_end, "user");
        let ghost ranges = as_ranges(found@);
        let mut out: Vec<UserRow> = Vec::new();
        assert(rows(out@) =~= Seq::<Row>::empty());
        for k in 0..found.len()
            invariant
                sys_start <= sys_end < self.events.len(),
                ranges == as_ranges(found@),
                users(self@) == users_at(self@, ranges),
                forall|k: int|
                    0 <= k < found.len() ==> sys_start < (#[trigger] found@[k]).0 <= found@[k].1
                        < sys_end,
                users_at(self@, ranges.take(k as int)) == Ok::<Seq<Row>, Failure>(rows(out@)),
        {
            let (s, e) = found[k];
            assert(ranges[k as int] == (s as int, e as int));
            assert(ranges.take(k + 1).drop_last() =~= ranges.take(k as int));
            let ghost so_far = out@;
            match self.parse_user_range(s, e) {
                Ok(row) => {
                    out.push(row);
                    assert(rows(out@) =~= rows(so_far).push(row@));
                },
                Err(e) => {
                    proof {
                        lemma_users_fail(self@, ranges, k as int + 1);
                    }
                    return Err(e);
                },
            }
        }
        assert(ranges.take(found.len() as int) =~= ranges);
        Ok(out)
    }

    /// The user written in the element at `(s, e)`.
    fn parse_user_range(&self, s: usize, e: usize) -> (res: Result<UserRow, PfError>)
        requires
            s <= e < self.events.len(),
        ensures
            match (user_at(self@, (s as int, e as int)), res) {
                (Ok(row), Ok(out)) => out@ == row,
                (Err(f), Err(err)) => err@ == f,
                _ => false,
            },
    {
        reveal(user_at);
        let name = self.child_text_or_empty(s, e, "name");
        let descr = self.child_text_or_empty(s, e, "descr");
        let uid_text = self.child_text_or_empty(s, e, "uid");
        let uid = match parse_u32(uid_text.as_str()) {
            Some(uid) => uid,
            None => {
                return Err(PfError::BadUid(uid_text, name));
            },
        };
        let scope = match self.child_text(s, e, "scope") {
            Some(text) => text,
            None => "user".to_owned(),
        };
        let expires = match self.child_text(s, e, "expires") {
            Some(text) => {
                if text.as_str().is_empty() {
                    None
                } else {
                    Some(text)
                }
            },
            None => None,
        };
        let flags = self.child_ranges(s, e, "disabled");
        assert(as_ranges(flags@).len() == flags.len());
        let disabled = flags.len() > 0;
        let priv_list = self.child_texts(s, e, "priv");
        let authorized_keys_b64 = self.child_text_or_empty(s, e, "authorizedkeys");
        let bcrypt_hash = self.child_text(s, e, "bcrypt-hash");
        let sha512_hash = self.child_text(s, e, "sha512-hash");
        let md5_hash = self.child_text(s, e, "md5-hash");
        Ok(
            UserRow {
                name,
                descr,
                uid,
                scope,
                expires,
                disabled,
                priv_list,
                authorized_keys_b64,
                bcrypt_hash,
                sha512_hash,
                md5_hash,
            },
        )
    }

    /// The user with the given name; `None` as well where the users cannot be
    /// read.
    pub fn find_user(&self, name: &str) -> (res: Option<UserRow>)
        ensures
            match (user_named(self@, name@), res) {
                (Some(row), Some(out)) => out@ == row,
                (None, None) => true,
                _ => false,
            },
    {
        let list = match self.list_users() {
            Ok(list) => list,
            Err(_) => {
                return None;
            },
        };
        let ghost all = rows(list@);
        assert(all.skip(0) =~= all);
        let mut i: usize = 0;
        while i < list.len()
            invariant
                all == rows(list@),
                user_named(self@, name@) == row_named(all, name@),
                i <= list.len(),
                row_named(all, name@) == row_named(all.skip(i as int), name@),
            decreases list.len() - i,
        {
            assert(all.skip(i as int)[0] == list@[i as int]@);
            assert(all.skip(i as int).drop_first() =~= all.skip(i + 1));
            if same_text(list[i].name.as_str(), name) {
                return Some(list[i].duplicate());
            }
            i = i + 1;
        }
        None
    }

    /// The uid that the next user will get.
    pub fn next_uid(&self) -> (res: Result<u32, PfError>)
        ensures
            match (next_uid_of(self@), res) {
                (Ok(n), Ok(out)) => out == n,
                (Err(f), Err(e)) => e@ == f,
                _ => false,
            },
    {
        let (s, e) = match self.find_system_range() {
            Ok(range) => range,
            Err(e) => {
                return Err(e);
            },
        };
        let text = match self.child_text(s, e, "nextuid") {
            Some(text) => text,
            None => {
                return Err(PfError::NoNextUid);
            },
        };
        match parse_u32(text.as_str()) {
            Some(n) => Ok(n),
            None => Err(PfError::BadNextUid(text)),
        }
    }
}

/// Adds the membership of `uid` in `group`.
fn add_membership(
    groups: &mut HashMap<u32, Vec<String>>,
    uid: u32,
    group: &str,
    Ghost(list): Ghost<Seq<(u32, Seq<char>)>>,
)
    requires
        grouped(old(groups)@, list),
    ensures
        grouped(final(groups)@, list.push((uid, group@))),
{
    let ghost before = groups@;
    let mut names: Vec<String> = match groups.remove(&uid) {
        Some(names) => names,
        None => Vec::new(),
    };
    let ghost had = names@;
    assert(texts(had) =~= groups_of(list, uid)) by {
        assert(before.contains_key(uid) || !before.contains_key(uid));
    }
    names.push(group.to_owned());
    assert(texts(names@) =~= texts(had).push(group@));
    groups.insert(uid, names);
    proof {
        let next = list.push((uid, group@));
        assert(next.drop_last() =~= list);
        assert forall|u: u32|
            if #[trigger] groups@.contains_key(u) {
                texts(groups@[u]@) == groups_of(next, u)
            } else {
                groups_of(next, u).len() == 0
            } by {
            assert(before.contains_key(u) || !before.contains_key(u));
        }
    }
}

impl Doc {
    /// The groups of every uid that is a member of one.
    pub fn groups_by_uid(&self) -> (res: Result<HashMap<u32, Vec<String>>, PfError>)
        ensures
            match (memberships(self@), res) {
                (Ok(list), Ok(groups)) => grouped(groups@, list),
                (Err(f), Err(e)) => e@ == f,
                _ => false,
            },
    {
        let (sys_start, sys_end) = match self.find_system_range() {
            Ok(range) => range,
            Err(e) => {
                return Err(e);
            },
        };
        let mut out: HashMap<u32, Vec<String>> = HashMap::new();
        let found = self.child_ranges(sys_start, sys_end, "group");
        let ghost ranges = as_ranges(found@);
        for k in 0..found.len()
            invariant
                sys_start <= sys_end < self.events.len(),
                ranges == as_ranges(found@),
                forall|k: int|
                    0 <= k < found.len() ==> sys_start < (#[trigger] found@[k]).0 <= found@[k].1
                        < sys_end,
                grouped(out@, memberships_at(self@, ranges.take(k as int))),
        {
            let (s, e) = found[k];
            assert(ranges[k as int] == (s as int, e as int));
            assert(ranges.take(k + 1).drop_last() =~= ranges.take(k as int));
            let ghost list = memberships_at(self@, ranges.take(k as int));
            let group = self.child_text_or_empty(s, e, "name");
            let members = self.child_texts(s, e, "member");
            let ghost all = texts(members@);
            assert(list + memberships_in(group@, all.take(0)) =~= list);
            for m in 0..members.len()
                invariant
                    all == texts(members@),
                    grouped(out@, list + memberships_in(group@, all.take(m as int))),
            {
                assert(all.take(m + 1).drop_last() =~= all.take(m as int));
                let ghost so_far = list + memberships_in(group@, all.take(m as int));
                if let Some(uid) = parse_u32(members[m].as_str()) {
                    add_membership(&mut out, uid, group.as_str(), Ghost(so_far));
                    assert(so_far.push((uid, group@)) =~= list + memberships_in(
                        group@,
                        all.take(m + 1),
                    ));
                }
            }
            assert(all.take(all.len() as int) =~= all);
        }
        assert(ranges.take(found.len() as int) =~= ranges);
        Ok(out)
    }
}

/// A failure among the first `k` users is the failure of them all.
proof fn lemma_users_fail(ts: Seq<Token>, ranges: Seq<(int, int)>, k: int)
    requires
        0 <= k <= ranges.len(),
        users_at(ts, ranges.take(k)) is Err,
    ensures
        users_at(ts, ranges) == users_at(ts, ranges.take(k)),
    decreases ranges.len(),
{
    if k < ranges.len() {
        assert(ranges.drop_last().take(k) =~= ranges.take(k));
        lemma_users_fail(ts, ranges.drop_last(), k);
    } else {
        assert(ranges.take(k) =~= ranges);
    }
}

// ---------- Laws ----------

/// What a user does not say of itself: it is an ordinary user, it does not expire, it is
/// not disabled, it has no description, privileges, keys or password. An empty date is
/// none.
pub proof fn missing_fields_have_defaults(ts: Seq<Token>, range: (int, int))
    requires
        user_at(ts, range) is Ok,
    ensures
        ({
            let row = user_at(ts, range)->Ok_0;
            let text = |name: Seq<char>| child_text(ts, range, name);
            &&& row.scope == match text("scope"@) {
                Some(s) => s,
                None => "user"@,
            }
            &&& row.expires is Some <==> text("expires"@) is Some && text("expires"@)->0.len() > 0
            &&& row.expires is Some ==> row.expires == text("expires"@)
            &&& row.disabled <==> text("disabled"@) is Some
            &&& text("name"@) == Some(row.name) || text("name"@) is None && row.name.len() == 0
            &&& text("descr"@) == Some(row.descr) || text("descr"@) is None && row.descr.len() == 0
            &&& text("authorizedkeys"@) == Some(row.authorized_keys_b64) || text(
                "authorizedkeys"@,
            ) is None && row.authorized_keys_b64.len() == 0
            &&& row.bcrypt_hash == text("bcrypt-hash"@)
            &&& row.sha512_hash == text("sha512-hash"@)
            &&& row.md5_hash == text("md5-hash"@)
            &&& text("uid"@) is Some
            &&& parsed_number(text("uid"@)->0, u32::MAX as nat) == Some(row.uid as nat)
            &&& row.priv_list == child_texts(ts, range, "priv"@)
        }),
{
    reveal(user_at);
}

/// Users are listed one by one, in the order of the document; one that cannot be read
/// keeps all of them from being listed.
pub proof fn users_are_listed_in_order(ts: Seq<Token>, ranges: Seq<(int, int)>)
    ensures
        users_at(ts, ranges) is Ok <==> forall|i: int|
            0 <= i < ranges.len() ==> user_at(ts, #[trigger] ranges[i]) is Ok,
        users_at(ts, ranges) matches Ok(rows) ==> rows.len() == ranges.len() && forall|i: int|
            0 <= i < ranges.len() ==> user_at(ts, ranges[i]) == Ok::<Row, Failure>(
                #[trigger] rows[i],
            ),
    decreases ranges.len(),
{
    if ranges.len() > 0 {
        let less = ranges.drop_last();
        users_are_listed_in_order(ts, less);
        assert(ranges.last() == ranges[ranges.len() - 1]);
        if let Ok(rows) = users_at(ts, ranges) {
            let before = users_at(ts, less)->Ok_0;
            assert forall|i: int| 0 <= i < ranges.len() implies user_at(ts, ranges[i]) == Ok::<
                Row,
                Failure,
            >(#[trigger] rows[i]) by {
                if i < less.len() {
                    assert(less[i] == ranges[i]);
                    assert(rows[i] == before[i]);
                }
            }
            assert forall|i: int| 0 <= i < ranges.len() implies user_at(
                ts,
                #[trigger] ranges[i],
            ) is Ok by {
                assert(user_at(ts, ranges[i]) == Ok::<Row, Failure>(rows[i]));
            }
        }
        if users_at(ts, less) is Err {
            let i = choose|i: int|
                0 <= i < less.len() && !(user_at(ts, #[trigger] less[i]) is Ok);
            assert(less[i] == ranges[i]);
        }
    }
}

/// A user is found by its name, and is the first that has it.
pub proof fn users_are_found_by_name(rows: Seq<Row>, name: Seq<char>)
    ensures
        row_named(rows, name) is Some <==> exists|i: int|
            0 <= i < rows.len() && (#[trigger] rows[i]).name == name,
        row_named(rows, name) matches Some(row) ==> row.name == name && exists|i: int|
            0 <= i < rows.len() && #[trigger] rows[i] == row && forall|k: int|
                0 <= k < i ==> (#[trigger] rows[k]).name != name,
    decreases rows.len(),
{
    if rows.len() > 0 {
        let rest = rows.drop_first();
        if rows[0].name == name {
            assert(rows[0] == rows[0]);
        } else {
            users_are_found_by_name(rest, name);
            if let Some(row) = row_named(rest, name) {
                let i = choose|i: int|
                    0 <= i < rest.len() && #[trigger] rest[i] == row && forall|k: int|
                        0 <= k < i ==> (#[trigger] rest[k]).name != name;
                assert(rows[i + 1] == row);
                assert forall|k: int| 0 <= k < i + 1 implies (#[trigger] rows[k]).name != name by {
                    if k > 0 {
                        assert(rest[k - 1] == rows[k]);
                    }
                }
            }
            if exists|i: int| 0 <= i < rows.len() && (#[trigger] rows[i]).name == name {
                let i = choose|i: int| 0 <= i < rows.len() && (#[trigger] rows[i]).name == name;
                assert(rest[i - 1] == rows[i]);
            }
        }
    }
}

/// A user is in the groups that list its uid, and in no other; they come in the order of
/// the document.
pub proof fn groups_go_by_uid(
    a: Seq<(u32, Seq<char>)>,
    b: Seq<(u32, Seq<char>)>,
    uid: u32,
    group: Seq<char>,
)
    ensures
        groups_of(a, uid).contains(group) <==> a.contains((uid, group)),
        groups_of(a + b, uid) == groups_of(a, uid) + groups_of(b, uid),
    decreases a.len() + b.len(),
{
    if b.len() > 0 {
        groups_go_by_uid(a, b.drop_last(), uid, group);
        assert((a + b).drop_last() =~= a + b.drop_last());
        assert(groups_of(a + b, uid) =~= groups_of(a, uid) + groups_of(b, uid));
    } else {
        assert(a + b =~= a);
        assert(groups_of(a, uid) + groups_of(b, uid) =~= groups_of(a, uid));
        if a.len() > 0 {
            let less = a.drop_last();
            groups_go_by_uid(less, b, uid, group);
            let inner = groups_of(less, uid);
            let all = groups_of(a, uid);
            if a.contains((uid, group)) {
                let k = choose|k: int| 0 <= k < a.len() && a[k] == (uid, group);
                if k < less.len() {
                    assert(less[k] == (uid, group));
                    let m = choose|m: int| 0 <= m < inner.len() && inner[m] == group;
                    assert(all[m] == group);
                } else {
                    assert(all[inner.len() as int] == group);
                }
            }
            if all.contains(group) {
                let m = choose|m: int| 0 <= m < all.len() && all[m] == group;
                if m < inner.len() {
                    assert(inner[m] == group);
                    let k = choose|k: int| 0 <= k < less.len() && less[k] == (uid, group);
                    assert(a[k] == (uid, group));
                } else {
                    assert(a[a.len() - 1] == (uid, group));
                }
            }
        }
    }
}

/// The members of a group are the uids that it lists; what is no uid makes no member.
pub proof fn members_are_the_listed_uids(
    group: Seq<char>,
    members: Seq<Seq<char>>,
    uid: u32,
    other: Seq<char>,
)
    ensures
        memberships_in(group, members).contains((uid, group)) <==> exists|i: int|
            0 <= i < members.len() && parsed_number(#[trigger] members[i], u32::MAX as nat) == Some(
                uid as nat,
            ),
        other != group ==> !memberships_in(group, members).contains((uid, other)),
    decreases members.len(),
{
    if members.len() > 0 {
        let less = members.drop_last();
        let last = members.last();
        members_are_the_listed_uids(group, less, uid, other);
        let inner = memberships_in(group, less);
        let all = memberships_in(group, members);
        assert(members[members.len() - 1] == last);
        if exists|i: int|
            0 <= i < members.len() && parsed_number(#[trigger] members[i], u32::MAX as nat) == Some(
                uid as nat,
            ) {
            let i = choose|i: int|
                0 <= i < members.len() && parsed_number(#[trigger] members[i], u32::MAX as nat)
                    == Some(uid as nat);
            if i < less.len() {
                assert(less[i] == members[i]);
                let k = choose|k: int| 0 <= k < inner.len() && inner[k] == (uid, group);
                assert(all[k] == (uid, group));
            } else {
                assert(all[inner.len() as int] == (uid, group));
            }
        }
        if all.contains((uid, group)) {
            let k = choose|k: int| 0 <= k < all.len() && all[k] == (uid, group);
            if k < inner.len() {
                assert(inner[k] == (uid, group));
                let i = choose|i: int|
                    0 <= i < less.len() && parsed_number(#[trigger] less[i], u32::MAX as nat)
                        == Some(uid as nat);
                assert(members[i] == less[i]);
            }
        }
        if other != group && all.contains((uid, other)) {
            let k = choose|k: int| 0 <= k < all.len() && all[k] == (uid, other);
            assert(inner[k] == (uid, other));
        }
    }
}


} // verus!
