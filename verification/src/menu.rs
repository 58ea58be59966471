//! What the menu shows and does.

use crate::numbers::{decimal, decimal_text};
use crate::socks::{is_address_text, lemma_dotted};
use crate::text::{
    concat2, concat3, contains_seq, ends_in, has_extension, is_extension, lowercase, lowercase_text,
    same_text, stands_at, starts_with, texts,
};
use crate::tunnel::{Standing, Status};
use vstd::prelude::*;
use vstd::string::*;

verus! {

// ---------- Endpoints ----------

/// An address of this machine.
#[derive(Debug, Clone, PartialEq, Eq)]
pub enum Address {
    V4(u8, u8, u8, u8),
    /// The sixteen bytes of an IPv6 address.
    V6(Vec<u8>),
}

/// A network interface, with one of its addresses.
#[derive(Debug, Clone, PartialEq, Eq)]
pub struct Interface {
    pub name: String,
    pub address: Address,
}

/// An interface of the system's own: tunnels, peer-to-peer links and bridges.
pub open spec fn is_pseudo(name: Seq<char>) -> bool {
    let lower = lowercase(name);
    ||| stands_at(lower, "utun"@, 0)
    ||| stands_at(lower, "awdl"@, 0)
    ||| stands_at(lower, "llw"@, 0)
    ||| stands_at(lower, "anpi"@, 0)
    ||| stands_at(lower, "ap"@, 0)
    ||| stands_at(lower, "bridge"@, 0)
}

/// An address that clients can reach: an IPv4 address that is no loopback address,
/// not the address of nothing, and no multicast address, on a real interface.
pub open spec fn is_reachable(i: Interface) -> bool {
    &&& i.address matches Address::V4(a, b, c, d)
    &&& a != 127
    &&& !(a == 0 && b == 0 && c == 0 && d == 0)
    &&& !(224 <= a <= 239)
    &&& !is_pseudo(i.name@)
}

/// An IPv4 address in dotted form.
pub open spec fn dotted(i: Interface) -> Seq<char> {
    match i.address {
        Address::V4(a, b, c, d) => decimal(a as nat) + "."@ + decimal(b as nat) + "."@ + decimal(
            c as nat,
        ) + "."@ + decimal(d as nat),
        Address::V6(_) => Seq::empty(),
    }
}

/// An endpoint on an interface, as it is shown.
pub open spec fn endpoint(i: Interface, port: u16) -> Seq<char> {
    dotted(i) + ":"@ + decimal(port as nat) + "  ("@ + i.name@ + ")"@
}

/// An interface whose address a reachable interface in front of it has.
pub open spec fn is_repeated(list: Seq<Interface>, at: int) -> bool {
    exists|k: int|
        0 <= k < at && is_reachable(#[trigger] list[k]) && list[k].address == list[at].address
}

/// The endpoints on the interfaces that clients can reach, each address once.
pub open spec fn endpoints_on(list: Seq<Interface>, port: u16) -> Seq<Seq<char>>
    decreases list.len(),
{
    if list.len() == 0 {
        Seq::empty()
    } else {
        let before = endpoints_on(list.drop_last(), port);
        let last = list.len() - 1;
        if is_reachable(list[last]) && !is_repeated(list, last) {
            before.push(endpoint(list[last], port))
        } else {
            before
        }
    }
}

/// All endpoints of a listener.
pub open spec fn endpoints(addr: Seq<char>, port: u16, list: Seq<Interface>) -> Seq<Seq<char>> {
    if addr != "0.0.0.0"@ && addr != "::"@ {
        seq![addr + ":"@ + decimal(port as nat)]
    } else {
        seq!["127.0.0.1:"@ + decimal(port as nat) + "  (loopback)"@] + endpoints_on(list, port)
    }
}

fn reachable(i: &Interface) -> (res: bool)
    ensures
        res == is_reachable(*i),
{
    match i.address {
        Address::V6(_) => false,
        Address::V4(a, b, c, d) => {
            if a == 127 || (a == 0 && b == 0 && c == 0 && d == 0) || (224 <= a && a <= 239) {
                return false;
            }
            let lower = lowercase_text(i.name.as_str());
            let name = lower.as_str();
            !(starts_with(name, "utun") || starts_with(name, "awdl") || starts_with(name, "llw")
                || starts_with(name, "anpi") || starts_with(name, "ap") || starts_with(
                name,
                "bridge",
            ))
        },
    }
}

fn same_v4(i: &Interface, k: &Interface) -> (res: bool)
    requires
        i.address is V4,
        k.address is V4,
    ensures
        res == (i.address == k.address),
{
    match (&i.address, &k.address) {
        (Address::V4(a, b, c, d), Address::V4(e, f, g, h)) => {
            *a == *e && *b == *f && *c == *g && *d == *h
        },
        _ => false,
    }
}

fn repeated(list: &Vec<Interface>, at: usize) -> (res: bool)
    requires
        at < list.len(),
        is_reachable(list@[at as int]),
    ensures
        res == is_repeated(list@, at as int),
{
    for k in 0..at
        invariant
            at < list.len(),
            is_reachable(list@[at as int]),
            forall|m: int|
                0 <= m < k ==> !(is_reachable(#[trigger] list@[m]) && list@[m].address
                    == list@[at as int].address),
    {
        if reachable(&list[k]) {
            if same_v4(&list[k], &list[at]) {
                assert(is_reachable(list@[k as int]));
                return true;
            }
        }
    }
    false
}

fn endpoint_text(i: &Interface, port: u16) -> (out: String)
    requires
        i.address is V4,
    ensures
        out@ == endpoint(*i, port),
{
    match i.address {
        Address::V4(a, b, c, d) => {
            let mut out = decimal_text(a as u64);
            out.append(".");
            out.append(decimal_text(b as u64).as_str());
            out.append(".");
            out.append(decimal_text(c as u64).as_str());
            out.append(".");
            out.append(decimal_text(d as u64).as_str());
            out.append(":");
            out.append(decimal_text(port as u64).as_str());
            out.append("  (");
            out.append(i.name.as_str());
            out.append(")");
            out
        },
        Address::V6(_) => String::new(),
    }
}

proof fn lemma_repeated_take(list: Seq<Interface>, at: int)
    requires
        0 <= at < list.len(),
    ensures
        is_repeated(list.take(at + 1), at) == is_repeated(list, at),
{
    let part = list.take(at + 1);
    if is_repeated(part, at) {
        let k = choose|k: int|
            0 <= k < at && is_reachable(#[trigger] part[k]) && part[k].address == part[at].address;
        assert(is_reachable(list[k]));
    }
    if is_repeated(list, at) {
        let k = choose|k: int|
            0 <= k < at && is_reachable(#[trigger] list[k]) && list[k].address == list[at].address;
        assert(is_reachable(part[k]));
    }
}

/// The addresses by which clients reach a listener, as they are shown.
pub fn collect_endpoints_from(listen_addr: &str, port: u16, list: &Vec<Interface>) -> (out: Vec<
    String,
>)
    ensures
        texts(out@) == endpoints(listen_addr@, port, list@),
{
    let mut out: Vec<String> = Vec::new();
    let number = decimal_text(port as u64);
    if !same_text(listen_addr, "0.0.0.0") && !same_text(listen_addr, "::") {
        out.push(concat3(listen_addr, ":", number.as_str()));
        assert(texts(out@) =~= endpoints(listen_addr@, port, list@));
        return out;
    }
    out.push(concat3("127.0.0.1:", number.as_str(), "  (loopback)"));
    let ghost first = texts(out@);
    assert(first =~= seq!["127.0.0.1:"@ + decimal(port as nat) + "  (loopback)"@]);
    assert(texts(out@) =~= first + endpoints_on(list@.take(0), port));
    for i in 0..list.len()
        invariant
            texts(out@) == first + endpoints_on(list@.take(i as int), port),
    {
        let ghost so_far = texts(out@);
        let ghost part = list@.take(i + 1);
        proof {
            assert(part.drop_last() =~= list@.take(i as int));
            lemma_repeated_take(list@, i as int);
        }
        if reachable(&list[i]) {
            if !repeated(list, i) {
                let line = endpoint_text(&list[i], port);
                out.push(line);
                assert(texts(out@) =~= so_far.push(line@));
            }
        }
        assert(texts(out@) =~= first + endpoints_on(part, port));
    }
    assert(list@.take(list.len() as int) =~= list@);
    out
}

// ---------- The status line ----------

/// The colours of the icon.
#[derive(Debug, Clone, Copy, PartialEq, Eq)]
pub enum IconColor {
    Green,
    Orange,
    Red,
    Gray,
}

/// How the status is shown.
pub struct StatusView {
    pub icon: IconColor,
    pub text: String,
    pub checked: bool,
    pub tooltip: String,
}

pub open spec fn status_icon(s: Standing) -> IconColor {
    match s {
        Standing::Connecting => IconColor::Orange,
        Standing::Connected => IconColor::Green,
        Standing::Disconnected(_) => IconColor::Red,
        Standing::Disabled => IconColor::Gray,
    }
}

pub open spec fn status_text(s: Standing, host: Seq<char>) -> Seq<char> {
    match s {
        Standing::Connecting => "Connecting…  "@ + host,
        Standing::Connected => host,
        Standing::Disconnected(_) => "Disconnected — "@ + host,
        Standing::Disabled => "Off — "@ + host,
    }
}

pub open spec fn status_tooltip(s: Standing, host: Seq<char>) -> Seq<char> {
    match s {
        Standing::Disconnected(error) => "БелкаТуннель — "@ + host + "\n"@ + error
            + "\n(click to connect)"@,
        Standing::Disabled => "БелкаТуннель — "@ + host + " (click to connect)"@,
        Standing::Connecting | Standing::Connected => "БелкаТуннель — "@ + host
            + " (click to disconnect)"@,
    }
}

/// Shows the status of the tunnel to a host. Only a connected tunnel is checked.
pub fn status_view(status: &Status, host: &str) -> (out: StatusView)
    ensures
        out.icon == status_icon(status@),
        out.text@ == status_text(status@, host@),
        out.checked == (status@ is Connected),
        out.tooltip@ == status_tooltip(status@, host@),
{
    let start = concat2("БелкаТуннель — ", host);
    match status {
        Status::Connecting => StatusView {
            icon: IconColor::Orange,
            text: concat2("Connecting…  ", host),
            checked: false,
            tooltip: concat2(start.as_str(), " (click to disconnect)"),
        },
        Status::Connected => StatusView {
            icon: IconColor::Green,
            text: host.to_owned(),
            checked: true,
            tooltip: concat2(start.as_str(), " (click to disconnect)"),
        },
        Status::Disconnected(error) => {
            let mut tooltip = concat3(start.as_str(), "\n", error.as_str());
            tooltip.append("\n(click to connect)");
            StatusView {
                icon: IconColor::Red,
                text: concat2("Disconnected — ", host),
                checked: false,
                tooltip,
            }
        },
        Status::Disabled => StatusView {
            icon: IconColor::Gray,
            text: concat2("Off — ", host),
            checked: false,
            tooltip: concat2(start.as_str(), " (click to connect)"),
        },
    }
}

/// A destination as it is shown.
pub open spec fn login_text(user: Seq<char>, host: Seq<char>, port: u16) -> Seq<char> {
    user + "@"@ + host + ":"@ + decimal(port as nat)
}

/// A destination as it is shown: user, host and port.
pub fn login(user: &str, host: &str, port: u16) -> (out: String)
    ensures
        out@ == login_text(user@, host@, port),
{
    let mut out = concat3(user, "@", host);
    out.append(":");
    out.append(decimal_text(port as u64).as_str());
    out
}

/// The first line of the menu.
pub fn header(active: &str, user: &str, host: &str, port: u16) -> (out: String)
    ensures
        out@ == "Profile: "@ + active@ + "  ("@ + login_text(user@, host@, port) + ")"@,
{
    let mut out = concat3("Profile: ", active, "  (");
    out.append(login(user, host, port).as_str());
    out.append(")");
    out
}

// ---------- Actions that run once ----------

/// Keeps an action from being started while it runs.
#[derive(Debug, Clone, Copy, PartialEq, Eq)]
pub struct BusyFlagGuard {
    pub busy: bool,
}

impl BusyFlagGuard {
    /// Begins the action, unless it runs already.
    pub fn begin(&mut self) -> (begun: bool)
        ensures
            begun == !old(self).busy,
            final(self).busy,
    {
        if self.busy {
            false
        } else {
            self.busy = true;
            true
        }
    }

    /// The action has ended, in whatever way.
    pub fn release(&mut self)
        ensures
            !final(self).busy,
    {
        self.busy = false;
    }
}

// ---------- Restarting ----------

/// The place of the innermost application bundle around a program, among the parts
/// of its path; the last part is the program itself.
pub open spec fn bundle_place(parts: Seq<Seq<char>>) -> Option<int>
    decreases parts.len(),
{
    if parts.len() <= 1 {
        None
    } else if has_extension(parts[parts.len() - 2], "app"@) {
        Some(parts.len() - 2)
    } else {
        bundle_place(parts.drop_last())
    }
}

/// Finds the bundle that a program is part of, in the parts of its path.
pub fn find_bundle(parts: &Vec<String>) -> (res: Option<usize>)
    ensures
        match (res, bundle_place(texts(parts@))) {
            (Some(i), Some(k)) => i == k && i < parts.len(),
            (None, None) => true,
            _ => false,
        },
{
    let ghost all = texts(parts@);
    let mut n: usize = parts.len();
    assert(all.take(n as int) =~= all);
    while n > 1
        invariant
            all == texts(parts@),
            n <= parts.len(),
            bundle_place(all) == bundle_place(all.take(n as int)),
        decreases n,
    {
        assert(all.take(n as int).drop_last() =~= all.take(n - 1));
        assert(all.take(n as int)[n - 2] == parts@[n - 2]@);
        if is_extension(parts[n - 2].as_str(), "app") {
            return Some(n - 2);
        }
        n = n - 1;
    }
    None
}

// ---------- Laws ----------

/// An address is shown once: an interface whose reachable address stands in front
/// of it changes nothing of what is shown.
pub proof fn addresses_are_shown_once(list: Seq<Interface>, port: u16, first: int, second: int)
    requires
        0 <= first < second < list.len(),
        is_reachable(list[first]),
        list[first].address == list[second].address,
    ensures
        endpoints_on(list, port) == endpoints_on(list.remove(second), port),
    decreases list.len(),
{
    let last = list.len() - 1;
    let less = list.remove(second);
    if second == last {
        assert(less =~= list.drop_last());
        assert(is_repeated(list, last));
    } else {
        assert(less.drop_last() =~= list.drop_last().remove(second));
        assert(less[last - 1] == list[last]);
        addresses_are_shown_once(list.drop_last(), port, first, second);
        if is_repeated(list, last) {
            let k = choose|k: int|
                0 <= k < last && is_reachable(#[trigger] list[k]) && list[k].address
                    == list[last].address;
            if k < second {
                assert(less[k] == list[k]);
            } else if k > second {
                assert(less[k - 1] == list[k]);
            } else {
                assert(less[first] == list[first]);
            }
            assert(is_repeated(less, last - 1));
        }
        if is_repeated(less, last - 1) {
            let k = choose|k: int|
                0 <= k < last - 1 && is_reachable(#[trigger] less[k]) && less[k].address
                    == less[last - 1].address;
            if k < second {
                assert(list[k] == less[k]);
            } else {
                assert(list[k + 1] == less[k]);
            }
            assert(is_repeated(list, last));
        }
    }
}

/// An IPv4 address is shown unless it is of this machine alone, of nothing or of many,
/// or stands on an interface that the system made for itself.
pub proof fn reachable_addresses(i: Interface, a: u8, b: u8, c: u8, d: u8)
    requires
        i.address == Address::V4(a, b, c, d),
    ensures
        a == 127 || 224 <= a <= 239 || (a == 0 && b == 0 && c == 0 && d == 0) ==> !is_reachable(i),
        !(a == 127 || 224 <= a <= 239 || (a == 0 && b == 0 && c == 0 && d == 0)) ==> (is_reachable(
            i,
        ) <==> !stands_at(lowercase(i.name@), "utun"@, 0) && !stands_at(
            lowercase(i.name@),
            "awdl"@,
            0,
        ) && !stands_at(lowercase(i.name@), "llw"@, 0) && !stands_at(
            lowercase(i.name@),
            "anpi"@,
            0,
        ) && !stands_at(lowercase(i.name@), "ap"@, 0) && !stands_at(
            lowercase(i.name@),
            "bridge"@,
            0,
        )),
{
}

/// Every reachable address is shown, with the port and the first interface that has
/// it; and all that is shown is such an address.
pub proof fn reachable_addresses_are_shown(list: Seq<Interface>, port: u16, at: int)
    requires
        0 <= at < list.len(),
        is_reachable(list[at]),
    ensures
        exists|k: int|
            0 <= k <= at && is_reachable(#[trigger] list[k]) && list[k].address == list[at].address
                && endpoints_on(list, port).contains(endpoint(list[k], port)),
    decreases list.len(),
{
    let last = list.len() - 1;
    let before = list.drop_last();
    let shown = endpoints_on(before, port);
    if at < last {
        reachable_addresses_are_shown(before, port, at);
        let k = choose|k: int|
            0 <= k <= at && is_reachable(#[trigger] before[k]) && before[k].address
                == before[at].address && shown.contains(endpoint(before[k], port));
        let i = choose|i: int| 0 <= i < shown.len() && shown[i] == endpoint(before[k], port);
        assert(list[k] == before[k]);
        assert(endpoints_on(list, port)[i] == shown[i]);
    } else if is_repeated(list, last) {
        let k = choose|k: int|
            0 <= k < last && is_reachable(#[trigger] list[k]) && list[k].address
                == list[last].address;
        assert(before[k] == list[k]);
        reachable_addresses_are_shown(before, port, k);
        let m = choose|m: int|
            0 <= m <= k && is_reachable(#[trigger] before[m]) && before[m].address
                == before[k].address && shown.contains(endpoint(before[m], port));
        assert(list[m] == before[m]);
    } else {
        let all = endpoints_on(list, port);
        assert(all[all.len() - 1] == endpoint(list[last], port));
    }
}

/// What is shown is the endpoint of an interface that clients can reach.
pub proof fn only_reachable_addresses_are_shown(list: Seq<Interface>, port: u16, line: int)
    requires
        0 <= line < endpoints_on(list, port).len(),
    ensures
        exists|k: int|
            0 <= k < list.len() && is_reachable(#[trigger] list[k]) && endpoints_on(
                list,
                port,
            )[line] == endpoint(list[k], port),
    decreases list.len(),
{
    let last = list.len() - 1;
    let before = list.drop_last();
    let shown = endpoints_on(before, port);
    if line < shown.len() {
        only_reachable_addresses_are_shown(before, port, line);
        let k = choose|k: int|
            0 <= k < before.len() && is_reachable(#[trigger] before[k]) && shown[line] == endpoint(
                before[k],
                port,
            );
        assert(list[k] == before[k]);
    } else {
        assert(is_reachable(list[last]));
    }
}

/// An endpoint is the address in dotted form, the port behind a colon, and the name of
/// the interface in brackets.
pub proof fn endpoints_read_back(i: Interface, a: u8, b: u8, c: u8, d: u8, port: u16)
    requires
        i.address == Address::V4(a, b, c, d),
    ensures
        is_address_text(dotted(i), seq![a, b, c, d]),
        endpoint(i, port) == dotted(i) + ":"@ + decimal(port as nat) + "  ("@ + i.name@ + ")"@,
{
    reveal_strlit(".");
    lemma_dotted(seq![a, b, c, d]);
    assert(dotted(i) =~= crate::socks::dotted(seq![a, b, c, d]));
}

/// The icon is green, and nothing else is, where the tunnel is connected; what is
/// shown ends in the host; and a click is said to connect exactly where the tunnel is
/// neither connected nor about to be.
pub proof fn statuses_are_told_apart(s: Standing, host: Seq<char>)
    ensures
        status_icon(s) == IconColor::Green <==> s is Connected,
        status_icon(s) == IconColor::Orange <==> s is Connecting,
        status_icon(s) == IconColor::Red <==> s is Disconnected,
        status_icon(s) == IconColor::Gray <==> s is Disabled,
        ends_in(status_text(s, host), host),
        status_text(s, host) == host <==> s is Connected,
        ends_in(status_tooltip(s, host), "(click to connect)"@) <==> s is Disconnected
            || s is Disabled,
        ends_in(status_tooltip(s, host), "(click to disconnect)"@) <==> s is Connected
            || s is Connecting,
        s matches Standing::Disconnected(error) ==> contains_seq(status_tooltip(s, host), error),
{
    reveal_strlit("Connecting…  ");
    reveal_strlit("Disconnected — ");
    reveal_strlit("Off — ");
    reveal_strlit("\n(click to connect)");
    reveal_strlit(" (click to connect)");
    reveal_strlit(" (click to disconnect)");
    reveal_strlit("(click to connect)");
    reveal_strlit("(click to disconnect)");
    let text = status_text(s, host);
    assert(text.subrange(text.len() - host.len(), text.len() as int) =~= host);
    let tip = status_tooltip(s, host);
    let on = "(click to connect)"@;
    let off = "(click to disconnect)"@;
    let n = tip.len() as int;
    if s is Disconnected || s is Disabled {
        assert(tip.subrange(n - on.len(), n) =~= on);
        if ends_in(tip, off) {
            assert(tip.subrange(n - off.len(), n)[off.len() - 9] == tip[n - 9]);
            assert(tip.subrange(n - on.len(), n)[on.len() - 9] == tip[n - 9]);
        }
    } else {
        assert(tip.subrange(n - off.len(), n) =~= off);
        if ends_in(tip, on) {
            assert(tip.subrange(n - off.len(), n)[off.len() - 9] == tip[n - 9]);
            assert(tip.subrange(n - on.len(), n)[on.len() - 9] == tip[n - 9]);
        }
    }
    if let Standing::Disconnected(error) = s {
        let front = "БелкаТуннель — "@ + host + "\n"@;
        assert(tip.subrange(front.len() as int, (front + error).len() as int) =~= error);
        assert(stands_at(tip, error, front.len() as int));
    }
}

/// The bundle around a program is a directory above it whose name ends in `.app`, and
/// the nearest such one.
pub proof fn the_nearest_bundle_is_found(parts: Seq<Seq<char>>)
    ensures
        match bundle_place(parts) {
            Some(i) => {
                &&& 0 <= i < parts.len() - 1
                &&& has_extension(parts[i], "app"@)
                &&& forall|k: int|
                    i < k < parts.len() - 1 ==> !has_extension(#[trigger] parts[k], "app"@)
            },
            None => forall|k: int|
                0 <= k < parts.len() - 1 ==> !has_extension(#[trigger] parts[k], "app"@),
        },
    decreases parts.len(),
{
    if parts.len() > 1 && !has_extension(parts[parts.len() - 2], "app"@) {
        let less = parts.drop_last();
        the_nearest_bundle_is_found(less);
        let from = match bundle_place(less) {
            Some(i) => i,
            None => -1,
        };
        assert forall|k: int| from < k < parts.len() - 1 implies !has_extension(
            #[trigger] parts[k],
            "app"@,
        ) by {
            if k < parts.len() - 2 {
                assert(less[k] == parts[k]);
            }
        }
        if from >= 0 {
            assert(less[from] == parts[from]);
        }
    }
}


} // verus!
