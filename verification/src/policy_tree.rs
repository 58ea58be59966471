//! The policy of the browser as one document: nested objects, in which the path of
//! a setting leads to its value.

use crate::firefox::{
    blocked_permissions, entries, install_firefox_policies, locale_preferences, permission_entries,
    policy, policy_head, preference_entries, privacy_preferences, Entry, Leaf, PolicyValue, Pref,
    Setting,
};
use crate::text::same_text;
use vstd::prelude::*;
use vstd::string::*;

verus! {

/// A value, or an object with more names in it.
#[derive(Debug, PartialEq, Eq)]
pub enum Node {
    Leaf(PolicyValue),
    Branch(Vec<(String, Node)>),
}

/// The names of a path, as text.
pub open spec fn keys(path: Seq<&'static str>) -> Seq<Seq<char>> {
    Seq::new(path.len(), |i: int| path[i]@)
}

/// Where a name first stands in an object.
pub open spec fn key_place(list: Seq<(String, Node)>, key: Seq<char>) -> Option<int>
    decreases list.len(),
{
    if list.len() == 0 {
        None
    } else if list[0].0@ == key {
        Some(0)
    } else {
        match key_place(list.drop_first(), key) {
            Some(i) => Some(i + 1),
            None => None,
        }
    }
}

/// The value that a path leads to, in an object.
pub open spec fn at(list: Seq<(String, Node)>, path: Seq<Seq<char>>) -> Option<Leaf>
    decreases path.len(),
{
    if path.len() == 0 {
        None
    } else {
        match key_place(list, path[0]) {
            None => None,
            Some(i) => match list[i].1 {
                Node::Leaf(v) => if path.len() == 1 {
                    Some(v@)
                } else {
                    None
                },
                Node::Branch(sub) => at(sub@, path.drop_first()),
            },
        }
    }
}

/// Every name stands once in an object, and so it is in the objects below it, none
/// of which is empty.
pub open spec fn is_object(list: Seq<(String, Node)>) -> bool
    decreases list,
{
    &&& forall|i: int, j: int|
        0 <= i < j < list.len() ==> (#[trigger] list[i]).0@ != (#[trigger] list[j]).0@
    &&& forall|i: int|
        0 <= i < list.len() ==> match (#[trigger] list[i]).1 {
            Node::Leaf(_) => true,
            Node::Branch(sub) => sub@.len() > 0 && is_object(sub@),
        }
}

/// One of the paths goes on where the other one ends, or they are the same: only
/// one of them can lead to a value.
pub open spec fn collide(a: Seq<Seq<char>>, b: Seq<Seq<char>>) -> bool {
    a.is_prefix_of(b) || b.is_prefix_of(a)
}

/// The value that a path leads to after the settings have been made, one after the
/// other.
pub open spec fn standing(settings: Seq<Entry>, path: Seq<Seq<char>>) -> Option<Leaf>
    decreases settings.len(),
{
    if settings.len() == 0 {
        None
    } else {
        let last = settings.last();
        if path == keys(last.path) {
            Some(last.value)
        } else if collide(path, keys(last.path)) {
            None
        } else {
            standing(settings.drop_last(), path)
        }
    }
}

proof fn lemma_key_place(list: Seq<(String, Node)>, key: Seq<char>)
    ensures
        match key_place(list, key) {
            Some(i) => 0 <= i < list.len() && list[i].0@ == key && forall|j: int|
                0 <= j < i ==> (#[trigger] list[j]).0@ != key,
            None => forall|j: int| 0 <= j < list.len() ==> (#[trigger] list[j]).0@ != key,
        },
    decreases list.len(),
{
    if list.len() > 0 && list[0].0@ != key {
        let rest = list.drop_first();
        lemma_key_place(rest, key);
        match key_place(rest, key) {
            Some(i) => {
                assert(rest[i] == list[i + 1]);
                assert forall|j: int| 0 <= j < i + 1 implies (#[trigger] list[j]).0@ != key by {
                    if j > 0 {
                        assert(rest[j - 1] == list[j]);
                    }
                }
            },
            None => {
                assert forall|j: int| 0 <= j < list.len() implies (#[trigger] list[j]).0@ != key by {
                    if j > 0 {
                        assert(rest[j - 1] == list[j]);
                    }
                }
            },
        }
    }
}

/// A name stands in the first place that holds it.
proof fn lemma_place_at(list: Seq<(String, Node)>, key: Seq<char>, i: int)
    requires
        0 <= i < list.len(),
        list[i].0@ == key,
        forall|j: int| 0 <= j < i ==> (#[trigger] list[j]).0@ != key,
    ensures
        key_place(list, key) == Some(i),
{
    lemma_key_place(list, key);
    if let Some(k) = key_place(list, key) {
        if k < i {
            assert(list[k].0@ != key);
        } else if i < k {
            assert(list[i].0@ != key);
        }
    } else {
        assert(list[i].0@ != key);
    }
}

fn find_key(list: &Vec<(String, Node)>, key: &str) -> (res: Option<usize>)
    ensures
        match (res, key_place(list@, key@)) {
            (Some(i), Some(k)) => i == k && i < list.len(),
            (None, None) => true,
            _ => false,
        },
{
    let mut i: usize = 0;
    while i < list.len()
        invariant
            i <= list.len(),
            forall|j: int| 0 <= j < i ==> (#[trigger] list@[j]).0@ != key@,
        decreases list.len() - i,
    {
        if same_text(list[i].0.as_str(), key) {
            proof {
                lemma_place_at(list@, key@, i as int);
            }
            return Some(i);
        }
        i = i + 1;
    }
    proof {
        lemma_key_place(list@, key@);
    }
    None
}

/// Paths with the same first name collide, or are the same, where their rests are.
proof fn lemma_rests(a: Seq<Seq<char>>, b: Seq<Seq<char>>)
    requires
        a.len() > 0,
        b.len() > 0,
    ensures
        a[0] == b[0] ==> (collide(a, b) <==> collide(a.drop_first(), b.drop_first())),
        a[0] == b[0] ==> (a == b <==> a.drop_first() == b.drop_first()),
        a[0] != b[0] ==> !collide(a, b),
{
    let x = a.drop_first();
    let y = b.drop_first();
    if a[0] == b[0] {
        if a.is_prefix_of(b) {
            assert(x =~= y.take(x.len() as int));
        }
        if b.is_prefix_of(a) {
            assert(y =~= x.take(y.len() as int));
        }
        assert(a =~= seq![a[0]] + x);
        assert(b =~= seq![b[0]] + y);
        if x.is_prefix_of(y) {
            assert(a =~= b.take(a.len() as int));
        }
        if y.is_prefix_of(x) {
            assert(b =~= a.take(b.len() as int));
        }
    } else {
        if a.is_prefix_of(b) {
            assert(a[0] == b.take(a.len() as int)[0]);
        }
        if b.is_prefix_of(a) {
            assert(b[0] == a.take(b.len() as int)[0]);
        }
    }
}

/// What a path leads to after a value has been put where another path leads.
pub open spec fn put_at(
    before: Seq<(String, Node)>,
    path: Seq<Seq<char>>,
    value: Leaf,
    p: Seq<Seq<char>>,
) -> Option<Leaf> {
    if p == path {
        Some(value)
    } else if collide(p, path) {
        None
    } else {
        at(before, p)
    }
}

/// The names other than the one that is put keep their places.
pub open spec fn others_kept(
    before: Seq<(String, Node)>,
    after: Seq<(String, Node)>,
    key: Seq<char>,
) -> bool {
    forall|other: Seq<char>|
        other != key ==> {
            &&& #[trigger] key_place(after, other) == key_place(before, other)
            &&& key_place(before, other) matches Some(i) ==> 0 <= i < before.len() && after[i]
                == before[i]
        }
}

proof fn lemma_pushed(list: Seq<(String, Node)>, x: (String, Node))
    requires
        key_place(list, x.0@) is None,
    ensures
        key_place(list.push(x), x.0@) == Some(list.len() as int),
        others_kept(list, list.push(x), x.0@),
{
    let all = list.push(x);
    lemma_key_place(list, x.0@);
    assert forall|j: int| 0 <= j < list.len() implies (#[trigger] all[j]).0@ != x.0@ by {
        assert(all[j] == list[j]);
    }
    lemma_place_at(all, x.0@, list.len() as int);
    assert forall|other: Seq<char>| other != x.0@ implies {
        &&& #[trigger] key_place(all, other) == key_place(list, other)
        &&& key_place(list, other) matches Some(i) ==> 0 <= i < list.len() && all[i] == list[i]
    } by {
        lemma_key_place(list, other);
        lemma_key_place(all, other);
        match key_place(list, other) {
            Some(i) => {
                assert forall|j: int| 0 <= j < i implies (#[trigger] all[j]).0@ != other by {
                    assert(all[j] == list[j]);
                }
                lemma_place_at(all, other, i);
            },
            None => {
                if let Some(k) = key_place(all, other) {
                    assert(all[k] == list[k]);
                }
            },
        }
    }
}

proof fn lemma_replaced(list: Seq<(String, Node)>, i: int, x: (String, Node))
    requires
        key_place(list, x.0@) == Some(i),
    ensures
        0 <= i < list.len(),
        key_place(list.update(i, x), x.0@) == Some(i),
        others_kept(list, list.update(i, x), x.0@),
{
    let all = list.update(i, x);
    lemma_key_place(list, x.0@);
    assert forall|j: int| 0 <= j < i implies (#[trigger] all[j]).0@ != x.0@ by {
        assert(all[j] == list[j]);
    }
    lemma_place_at(all, x.0@, i);
    assert forall|other: Seq<char>| other != x.0@ implies {
        &&& #[trigger] key_place(all, other) == key_place(list, other)
        &&& key_place(list, other) matches Some(k) ==> 0 <= k < list.len() && all[k] == list[k]
    } by {
        lemma_key_place(list, other);
        lemma_key_place(all, other);
        match key_place(list, other) {
            Some(k) => {
                assert forall|j: int| 0 <= j < k implies (#[trigger] all[j]).0@ != other by {
                    assert(j != i ==> all[j] == list[j]);
                }
                lemma_place_at(all, other, k);
            },
            None => {
                if let Some(k) = key_place(all, other) {
                    assert(k != i ==> all[k] == list[k]);
                }
            },
        }
    }
}

/// A value under a new node of an object.
proof fn lemma_put(
    before: Seq<(String, Node)>,
    after: Seq<(String, Node)>,
    path: Seq<Seq<char>>,
    value: Leaf,
    i: int,
    sub: Seq<(String, Node)>,
)
    requires
        path.len() > 0,
        0 <= i < after.len(),
        key_place(after, path[0]) == Some(i),
        others_kept(before, after, path[0]),
        path.len() == 1 ==> (after[i].1 matches Node::Leaf(v) && v@ == value),
        path.len() > 1 ==> (after[i].1 matches Node::Branch(next) && forall|p: Seq<Seq<char>>|
            #[trigger] at(next@, p) == put_at(sub, path.drop_first(), value, p)),
        match key_place(before, path[0]) {
            Some(k) => 0 <= k < before.len() && match before[k].1 {
                Node::Branch(had) => sub == had@,
                Node::Leaf(_) => sub.len() == 0,
            },
            None => sub.len() == 0,
        },
    ensures
        forall|p: Seq<Seq<char>>| #[trigger] at(after, p) == put_at(before, path, value, p),
{
    assert forall|p: Seq<Seq<char>>| #[trigger] at(after, p) == put_at(
        before,
        path,
        value,
        p,
    ) by {
        if p.len() == 0 {
            assert(p.is_prefix_of(path)) by {
                assert(p =~= path.take(0));
            }
        } else {
            lemma_rests(p, path);
            if p[0] == path[0] {
                let rest = p.drop_first();
                if path.len() == 1 {
                    assert(path.drop_first() =~= Seq::empty());
                    assert(path.drop_first().is_prefix_of(rest)) by {
                        assert(path.drop_first() =~= rest.take(0));
                    }
                    if p.len() == 1 {
                        assert(rest =~= path.drop_first());
                    }
                } else {
                    let next = after[i].1->Branch_0;
                    assert(at(after, p) == at(next@, rest));
                    assert(at(after, p) == put_at(sub, path.drop_first(), value, rest));
                    if rest.len() == 0 {
                        assert(rest =~= path.drop_first().take(0));
                        assert(rest.is_prefix_of(path.drop_first()));
                    } else if sub.len() == 0 {
                        assert(at(sub, rest) is None);
                    }
                }
            } else {
                assert(key_place(after, p[0]) == key_place(before, p[0]));
            }
        }
    }
}

proof fn lemma_object_pushed(list: Seq<(String, Node)>, x: (String, Node))
    requires
        is_object(list),
        forall|j: int| 0 <= j < list.len() ==> (#[trigger] list[j]).0@ != x.0@,
        x.1 matches Node::Branch(sub) ==> sub@.len() > 0 && is_object(sub@),
    ensures
        is_object(list.push(x)),
{
    let all = list.push(x);
    assert forall|i: int, j: int| 0 <= i < j < all.len() implies (#[trigger] all[i]).0@ != (
    #[trigger] all[j]).0@ by {
        assert(all[i] == list[i]);
        if j < list.len() {
            assert(all[j] == list[j]);
        }
    }
    assert forall|i: int| 0 <= i < all.len() implies match (#[trigger] all[i]).1 {
        Node::Leaf(_) => true,
        Node::Branch(sub) => sub@.len() > 0 && is_object(sub@),
    } by {
        if i < list.len() {
            assert(all[i] == list[i]);
        }
    }
}

proof fn lemma_object_replaced(list: Seq<(String, Node)>, k: int, x: (String, Node))
    requires
        is_object(list),
        0 <= k < list.len(),
        list[k].0@ == x.0@,
        x.1 matches Node::Branch(sub) ==> sub@.len() > 0 && is_object(sub@),
    ensures
        is_object(list.update(k, x)),
{
    let all = list.update(k, x);
    assert forall|i: int, j: int| 0 <= i < j < all.len() implies (#[trigger] all[i]).0@ != (
    #[trigger] all[j]).0@ by {
        assert(list[i].0@ != list[j].0@);
    }
    assert forall|i: int| 0 <= i < all.len() implies match (#[trigger] all[i]).1 {
        Node::Leaf(_) => true,
        Node::Branch(sub) => sub@.len() > 0 && is_object(sub@),
    } by {
        if i != k {
            assert(all[i] == list[i]);
        }
    }
}

/// Puts a value where the names of `path` from `from` on lead. What stood in its
/// way is dropped.
fn put(
    list: Vec<(String, Node)>,
    path: &Vec<&'static str>,
    from: usize,
    value: PolicyValue,
) -> (out: Vec<(String, Node)>)
    requires
        from < path.len(),
        is_object(list@),
    ensures
        is_object(out@),
        out.len() > 0,
        forall|p: Seq<Seq<char>>| #[trigger]
            at(out@, p) == put_at(list@, keys(path@.skip(from as int)), value@, p),
    decreases path.len() - from,
{
    let ghost before = list@;
    let ghost names = keys(path@.skip(from as int));
    let ghost meant = value@;
    let key = path[from];
    let place = find_key(&list, key);
    let last = from + 1 == path.len();
    let mut list = list;
    proof {
        assert(names.len() == path.len() - from);
        assert(names[0] == key@);
        assert(names.drop_first() =~= keys(path@.skip(from + 1)));
    }
    match place {
        None => {
            let sub: Vec<(String, Node)> = Vec::new();
            let ghost had = sub@;
            let node = if last {
                Node::Leaf(value)
            } else {
                Node::Branch(put(sub, path, from + 1, value))
            };
            let name = key.to_owned();
            let ghost x = (name, node);
            list.push((name, node));
            proof {
                lemma_pushed(before, x);
                assert(list@ =~= before.push(x));
                lemma_key_place(before, key@);
                lemma_object_pushed(before, x);
                lemma_put(before, list@, names, meant, before.len() as int, had);
            }
        },
        Some(i) => {
            let (name, old_node) = list.remove(i);
            assert(before[i as int] == (name, old_node));
            let sub: Vec<(String, Node)> = match old_node {
                Node::Branch(sub) => sub,
                Node::Leaf(_) => Vec::new(),
            };
            let ghost had = sub@;
            let node = if last {
                Node::Leaf(value)
            } else {
                Node::Branch(put(sub, path, from + 1, value))
            };
            let ghost x = (name, node);
            list.insert(i, (name, node));
            proof {
                lemma_key_place(before, key@);
                assert(list@ =~= before.update(i as int, x));
                lemma_replaced(before, i as int, x);
                lemma_object_replaced(before, i as int, x);
                lemma_put(before, list@, names, meant, i as int, had);
            }
        },
    }
    list
}

/// The settings as one object.
pub fn policy_tree(settings: Vec<Setting>) -> (out: Vec<(String, Node)>)
    requires
        forall|i: int| 0 <= i < settings.len() ==> (#[trigger] settings@[i]).path.len() > 0,
    ensures
        is_object(out@),
        forall|p: Seq<Seq<char>>| #[trigger] at(out@, p) == standing(entries(settings@), p),
{
    let ghost all = entries(settings@);
    let mut out: Vec<(String, Node)> = Vec::new();
    let mut i: usize = 0;
    assert(all.take(0) =~= Seq::<Entry>::empty());
    while i < settings.len()
        invariant
            i <= settings.len(),
            all == entries(settings@),
            is_object(out@),
            forall|k: int| 0 <= k < settings.len() ==> (#[trigger] settings@[k]).path.len() > 0,
            forall|p: Seq<Seq<char>>| #[trigger] at(out@, p) == standing(all.take(i as int), p),
        decreases settings.len() - i,
    {
        let ghost so_far = out@;
        let value = copy_value(&settings[i].value);
        out = put(out, &settings[i].path, 0, value);
        proof {
            let e = all[i as int];
            assert(e == settings@[i as int]@);
            assert(settings@[i as int].path@.skip(0) =~= e.path);
            assert(all.take(i + 1).drop_last() =~= all.take(i as int));
            assert(all.take(i + 1).last() == e);
            assert forall|p: Seq<Seq<char>>| #[trigger] at(out@, p) == standing(
                all.take(i + 1),
                p,
            ) by {
                assert(at(so_far, p) == standing(all.take(i as int), p));
            }
        }
        i = i + 1;
    }
    assert(all.take(all.len() as int) =~= all);
    out
}

fn copy_value(value: &PolicyValue) -> (out: PolicyValue)
    ensures
        out@ == value@,
{
    match value {
        PolicyValue::Flag(b) => PolicyValue::Flag(*b),
        PolicyValue::Number(n) => PolicyValue::Number(*n),
        PolicyValue::Text(s) => PolicyValue::Text(s.clone()),
        PolicyValue::List(v) => PolicyValue::List(crate::text::copy_texts(v)),
    }
}

proof fn lemma_preference_paths(list: Seq<(&'static str, Pref)>)
    ensures
        forall|i: int|
            0 <= i < preference_entries(list).len() ==> (
            #[trigger] preference_entries(list)[i]).path.len() > 0,
    decreases list.len(),
{
    if list.len() > 0 {
        lemma_preference_paths(list.drop_last());
    }
}

proof fn lemma_permission_paths(list: Seq<&'static str>)
    ensures
        forall|i: int|
            0 <= i < permission_entries(list).len() ==> (
            #[trigger] permission_entries(list)[i]).path.len() > 0,
    decreases list.len(),
{
    if list.len() > 0 {
        lemma_permission_paths(list.drop_last());
    }
}

/// The policy that locks the browser to a SOCKS5 proxy, as one document.
pub fn policy_document(socks_host: &str, socks_port: u16) -> (out: Vec<(String, Node)>)
    ensures
        is_object(out@),
        forall|p: Seq<Seq<char>>| #[trigger]
            at(out@, p) == standing(policy(socks_host@, socks_port), p),
{
    let settings = install_firefox_policies(socks_host, socks_port);
    proof {
        lemma_permission_paths(blocked_permissions());
        lemma_preference_paths(privacy_preferences());
        lemma_preference_paths(locale_preferences());
        let all = policy(socks_host@, socks_port);
        let head = policy_head(socks_host@, socks_port);
        assert(all == head + preference_entries(privacy_preferences()) + preference_entries(
            locale_preferences(),
        ));
        assert forall|i: int| 0 <= i < settings.len() implies (#[trigger] settings@[i]).path.len()
            > 0 by {
            assert(entries(settings@)[i] == settings@[i]@);
            assert(all[i].path.len() > 0);
        }
    }
    policy_tree(settings)
}

// ---------- Laws ----------

/// A setting that no later one collides with stands in the document.
pub proof fn undisturbed_settings_stand(settings: Seq<Entry>, i: int)
    requires
        0 <= i < settings.len(),
        forall|j: int|
            i < j < settings.len() ==> !collide(
                keys(settings[i].path),
                keys((#[trigger] settings[j]).path),
            ),
    ensures
        standing(settings, keys(settings[i].path)) == Some(settings[i].value),
    decreases settings.len(),
{
    let path = keys(settings[i].path);
    if i < settings.len() - 1 {
        let front = settings.drop_last();
        let last = settings[settings.len() - 1];
        assert(!collide(path, keys(last.path)));
        assert(path.is_prefix_of(path));
        assert(front[i] == settings[i]);
        assert forall|j: int| i < j < front.len() implies !collide(
            keys(front[i].path),
            keys((#[trigger] front[j]).path),
        ) by {
            assert(front[j] == settings[j]);
        }
        undisturbed_settings_stand(front, i);
    }
}

} // verus!
