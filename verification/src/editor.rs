//! Editing the configuration: what the buttons of the editor do.

use crate::config::{
    default_settings, fault_of, fault_text, lookup, sorted, zero_port, ConfigFile, Profile,
    ReconnectConfig, Settings,
};
use crate::menu::{login, login_text};
use crate::numbers::{decimal, decimal_injective, decimal_is_digits, decimal_text};
use crate::text::{concat2, concat3, same_text, stands_at, trim, trimmed};
use vstd::prelude::*;
use vstd::string::*;

verus! {

/// Most copies of a profile that are named.
pub const MAX_COPIES: u32 = 2147483647;

/// The configuration in the editor, and the profile that is shown.
pub struct Editor {
    pub file: ConfigFile,
    pub selected: String,
}

/// There is a profile with this name.
pub open spec fn holds(file: ConfigFile, name: Seq<char>) -> bool {
    lookup(file.profiles@, name) is Some
}

/// Both hold the same profiles, but for one name.
pub open spec fn same_but(a: ConfigFile, b: ConfigFile, name: Seq<char>) -> bool {
    forall|other: Seq<char>|
        other != name ==> #[trigger] lookup(a.profiles@, other) == lookup(b.profiles@, other)
}

/// The name of the n-th copy of a profile.
pub open spec fn copy_name(name: Seq<char>, n: nat) -> Seq<char> {
    if n <= 1 {
        name + "-copy"@
    } else {
        name + "-copy"@ + decimal(n)
    }
}

/// The number of the first copy, from the n-th on, whose name is free.
pub open spec fn free_copy(file: ConfigFile, name: Seq<char>, n: nat) -> Option<nat>
    decreases MAX_COPIES - n,
{
    if !holds(file, copy_name(name, n)) {
        Some(n)
    } else if n >= MAX_COPIES {
        None
    } else {
        free_copy(file, name, n + 1)
    }
}

impl Editor {
    /// The editor shows a profile of a configuration in order.
    pub open spec fn is_ordered(&self) -> bool {
        self.file.is_ordered()
    }

    /// Shows the active profile of a configuration.
    pub fn new(file: ConfigFile) -> (out: Editor)
        ensures
            out.file == file,
            out.selected@ == file.active@,
    {
        let selected = file.active.clone();
        Editor { file, selected }
    }

    /// Whether a new profile may have this name: it is not blank, and not taken.
    pub fn can_add(&self, name: &str) -> (res: bool)
        ensures
            res == (trimmed(name@).len() > 0 && !holds(self.file, trimmed(name@))),
    {
        let text = trim(name);
        text.as_str().unicode_len() > 0 && !self.file.contains_key(text.as_str())
    }

    /// Adds a new profile, and shows it; nothing where the name may not be had.
    pub fn add_profile(&mut self, name: &str, home: &str)
        requires
            old(self).is_ordered(),
        ensures
            final(self).is_ordered(),
            final(self).file.active == old(self).file.active,
            ({
                let key = trimmed(name@);
                if key.len() > 0 && !holds(old(self).file, key) {
                    &&& lookup(final(self).file.profiles@, key) == Some(default_settings(home@))
                    &&& same_but(old(self).file, final(self).file, key)
                    &&& final(self).selected@ == key
                } else {
                    *final(self) == *old(self)
                }
            }),
    {
        if !self.can_add(name) {
            return;
        }
        let key = trim(name);
        self.selected = key.clone();
        self.file.insert(key, Profile::standard(home));
    }

    /// Copies the shown profile under a free name, and shows the copy.
    pub fn duplicate(&mut self)
        requires
            old(self).is_ordered(),
        ensures
            final(self).is_ordered(),
            final(self).file.active == old(self).file.active,
            match (
                lookup(old(self).file.profiles@, old(self).selected@),
                free_copy(old(self).file, old(self).selected@, 1),
            ) {
                (Some(shown), Some(n)) => {
                    let key = copy_name(old(self).selected@, n);
                    &&& lookup(final(self).file.profiles@, key) == Some(shown)
                    &&& same_but(old(self).file, final(self).file, key)
                    &&& final(self).selected@ == key
                },
                _ => *final(self) == *old(self),
            },
    {
        let copy = match self.file.get(self.selected.as_str()) {
            Some(profile) => profile.duplicate(),
            None => {
                return;
            },
        };
        let mut n: u32 = 1;
        let mut key = concat2(self.selected.as_str(), "-copy");
        while self.file.contains_key(key.as_str())
            invariant
                self.file == old(self).file,
                self.selected == old(self).selected,
                1 <= n <= MAX_COPIES,
                key@ == copy_name(self.selected@, n as nat),
                free_copy(self.file, self.selected@, 1) == free_copy(
                    self.file,
                    self.selected@,
                    n as nat,
                ),
                lookup(self.file.profiles@, self.selected@) is Some,
                *self == *old(self),
                self.is_ordered(),
            decreases MAX_COPIES - n,
        {
            if n == MAX_COPIES {
                return;
            }
            n = n + 1;
            key = concat3(self.selected.as_str(), "-copy", decimal_text(n as u64).as_str());
        }
        self.selected = key.clone();
        self.file.insert(key, copy);
    }

    /// Whether the shown profile may be deleted: it exists, and is not the last.
    pub fn can_delete(&self) -> (res: bool)
        ensures
            res == (self.file.profiles@.len() > 1 && holds(self.file, self.selected@)),
    {
        self.file.profiles.len() > 1 && self.file.contains_key(self.selected.as_str())
    }

    /// Deletes a profile. Where it was active, the first of the others becomes
    /// active; the active profile is shown.
    pub fn delete(&mut self, target: &str)
        requires
            old(self).is_ordered(),
        ensures
            final(self).is_ordered(),
            !holds(final(self).file, target@),
            same_but(old(self).file, final(self).file, target@),
            final(self).selected@ == final(self).file.active@,
            final(self).file.active@ == if old(self).file.active@ != target@ {
                old(self).file.active@
            } else if final(self).file.profiles@.len() == 0 {
                Seq::empty()
            } else {
                final(self).file.profiles@[0].0@
            },
            final(self).file.profiles@.len() == old(self).file.profiles@.len() - if holds(
                old(self).file,
                target@,
            ) {
                1int
            } else {
                0int
            },
    {
        self.file.remove(target);
        if same_text(self.file.active.as_str(), target) {
            if self.file.profiles.len() == 0 {
                let none = String::new();
                assert(none@ =~= Seq::<char>::empty());
                self.file.active = none;
            } else {
                let first = self.file.profiles[0].0.clone();
                self.file.active = first;
            }
        }
        self.selected = self.file.active.clone();
    }

    /// Whether the shown profile can be made the active one.
    pub fn can_activate(&self) -> (res: bool)
        ensures
            res == (holds(self.file, self.selected@) && self.selected@ != self.file.active@),
    {
        self.file.contains_key(self.selected.as_str()) && !same_text(
            self.selected.as_str(),
            self.file.active.as_str(),
        )
    }

    /// Makes the shown profile the active one, where it exists.
    pub fn activate(&mut self)
        ensures
            final(self).selected == old(self).selected,
            final(self).file.profiles == old(self).file.profiles,
            final(self).file.active@ == if holds(old(self).file, old(self).selected@) {
                old(self).selected@
            } else {
                old(self).file.active@
            },
    {
        if self.file.contains_key(self.selected.as_str()) {
            let name = self.selected.clone();
            self.file.active = name;
        }
    }
}

// ---------- The fields of a profile ----------

/// A number within limits.
pub open spec fn within(v: int, low: int, high: int) -> int {
    if v < low {
        low
    } else if v > high {
        high
    } else {
        v
    }
}

fn clamped(v: u64, low: u64, high: u64) -> (out: u64)
    requires
        low <= high,
    ensures
        out == within(v as int, low as int, high as int),
        low <= out <= high,
{
    if v < low {
        low
    } else if v > high {
        high
    } else {
        v
    }
}

/// Fewest and most seconds between signs of life.
pub const KEEPALIVE_MIN: u64 = 5;

pub const KEEPALIVE_MAX: u64 = 600;

/// Most seconds of the first wait, and of the longest.
pub const INITIAL_BACKOFF_MAX: u64 = 60;

pub const MAX_BACKOFF_MAX: u64 = 3600;

/// A change of one field of the shown profile.
pub enum Edit {
    Host(String),
    Port(u32),
    Keepalive(u64),
    User(String),
    KeyPath(String),
    /// What was typed as the passphrase.
    Passphrase(String),
    ForgetFingerprint,
    /// Listen on all interfaces, or on this machine alone.
    ListenAll(bool),
    SocksAddr(String),
    SocksPort(u32),
    HttpEnabled(bool),
    HttpAddr(String),
    HttpPort(u32),
    InitialBackoff(u64),
    MaxBackoff(u64),
    /// The multiplier, as the bits of a double.
    Multiplier(u64),
}

/// A profile after a change. Numbers are kept within their limits.
pub open spec fn edited(s: Settings, edit: Edit) -> Settings {
    match edit {
        Edit::Host(text) => Settings { host: text@, ..s },
        Edit::Port(n) => Settings { port: within(n as int, 1, 65535) as u16, ..s },
        Edit::Keepalive(n) => Settings {
            keepalive_secs: within(n as int, KEEPALIVE_MIN as int, KEEPALIVE_MAX as int) as u64,
            ..s
        },
        Edit::User(text) => Settings { user: text@, ..s },
        Edit::KeyPath(text) => Settings { key_path: text@, ..s },
        Edit::Passphrase(text) => Settings {
            key_passphrase: if text@.len() == 0 {
                None
            } else {
                Some(text@)
            },
            ..s
        },
        Edit::ForgetFingerprint => Settings { host_key_fingerprint: None, ..s },
        Edit::ListenAll(all) => Settings {
            socks_addr: if all {
                ALL_INTERFACES@
            } else {
                LOOPBACK@
            },
            ..s
        },
        Edit::SocksAddr(text) => Settings { socks_addr: text@, ..s },
        Edit::SocksPort(n) => Settings { socks_port: within(n as int, 1, 65535) as u16, ..s },
        Edit::HttpEnabled(on) => Settings { http_enabled: on, ..s },
        Edit::HttpAddr(text) => Settings { http_addr: text@, ..s },
        Edit::HttpPort(n) => Settings { http_port: within(n as int, 1, 65535) as u16, ..s },
        Edit::InitialBackoff(n) => Settings {
            reconnect: ReconnectConfig {
                initial_backoff_secs: within(n as int, 1, INITIAL_BACKOFF_MAX as int) as u64,
                ..s.reconnect
            },
            ..s
        },
        Edit::MaxBackoff(n) => Settings {
            reconnect: ReconnectConfig {
                max_backoff_secs: within(n as int, 1, MAX_BACKOFF_MAX as int) as u64,
                ..s.reconnect
            },
            ..s
        },
        Edit::Multiplier(bits) => Settings {
            reconnect: ReconnectConfig { backoff_multiplier_bits: bits, ..s.reconnect },
            ..s
        },
    }
}

fn edit_profile(profile: Profile, edit: Edit) -> (out: Profile)
    ensures
        out@ == edited(profile@, edit),
{
    let mut out = profile;
    match edit {
        Edit::Host(text) => {
            out.ssh.host = text;
        },
        Edit::Port(n) => {
            out.ssh.port = clamped(n as u64, 1, 65535) as u16;
        },
        Edit::Keepalive(n) => {
            out.ssh.keepalive_secs = clamped(n, KEEPALIVE_MIN, KEEPALIVE_MAX);
        },
        Edit::User(text) => {
            out.ssh.user = text;
        },
        Edit::KeyPath(text) => {
            out.ssh.key_path = text;
        },
        Edit::Passphrase(text) => {
            out.ssh.key_passphrase = typed_passphrase(text);
        },
        Edit::ForgetFingerprint => {
            out.ssh.host_key_fingerprint = None;
        },
        Edit::ListenAll(all) => {
            out.socks.listen_addr = listen_address(all).to_owned();
        },
        Edit::SocksAddr(text) => {
            out.socks.listen_addr = text;
        },
        Edit::SocksPort(n) => {
            out.socks.listen_port = clamped(n as u64, 1, 65535) as u16;
        },
        Edit::HttpEnabled(on) => {
            out.http.enabled = on;
        },
        Edit::HttpAddr(text) => {
            out.http.listen_addr = text;
        },
        Edit::HttpPort(n) => {
            out.http.listen_port = clamped(n as u64, 1, 65535) as u16;
        },
        Edit::InitialBackoff(n) => {
            out.reconnect.initial_backoff_secs = clamped(n, 1, INITIAL_BACKOFF_MAX);
        },
        Edit::MaxBackoff(n) => {
            out.reconnect.max_backoff_secs = clamped(n, 1, MAX_BACKOFF_MAX);
        },
        Edit::Multiplier(bits) => {
            out.reconnect.backoff_multiplier_bits = bits;
        },
    }
    out
}

impl Editor {
    /// Changes a field of the shown profile; nothing where there is none.
    pub fn apply(&mut self, edit: Edit)
        requires
            old(self).is_ordered(),
        ensures
            final(self).is_ordered(),
            final(self).selected == old(self).selected,
            final(self).file.active == old(self).file.active,
            same_but(old(self).file, final(self).file, old(self).selected@),
            lookup(final(self).file.profiles@, old(self).selected@) == match lookup(
                old(self).file.profiles@,
                old(self).selected@,
            ) {
                Some(s) => Some(edited(s, edit)),
                None => None,
            },
    {
        let profile = match self.file.get(self.selected.as_str()) {
            Some(profile) => profile.duplicate(),
            None => {
                return;
            },
        };
        let name = self.selected.clone();
        self.file.insert(name, edit_profile(profile, edit));
    }
}

// ---------- What is shown ----------

/// A profile in the list.
pub struct SidebarRow {
    pub name: String,
    pub is_active: bool,
    pub is_selected: bool,
    /// User, host and port.
    pub login: String,
}

/// What the row of a profile says.
pub open spec fn is_row_of(row: SidebarRow, entry: (String, Profile), e: Editor) -> bool {
    &&& row.name@ == entry.0@
    &&& row.is_active == (entry.0@ == e.file.active@)
    &&& row.is_selected == (entry.0@ == e.selected@)
    &&& row.login@ == login_text(entry.1@.user, entry.1@.host, entry.1@.port)
}

/// What the editor shows of a profile.
pub struct Panel {
    pub title: String,
    pub is_active: bool,
    /// The host key, or that there is none.
    pub fingerprint: String,
    pub can_forget: bool,
    pub listens_on_all: bool,
    /// What listening there means.
    pub listen_note: &'static str,
    /// What becomes of the changes.
    pub banner: &'static str,
}

/// What is shown of the shown profile.
pub open spec fn is_panel_of(p: Panel, e: Editor, s: Settings) -> bool {
    let all = s.socks_addr == ALL_INTERFACES@;
    let active = e.selected@ == e.file.active@;
    &&& p.title@ == e.selected@
    &&& p.is_active == active
    &&& p.fingerprint@ == (match s.host_key_fingerprint {
        Some(text) => text,
        None => "(none recorded — trust-on-first-use mode)"@,
    })
    &&& p.can_forget == (s.host_key_fingerprint is Some)
    &&& p.listens_on_all == all
    &&& p.listen_note@ == (if all {
        "Reachable from the LAN."@
    } else {
        "Loopback only (this Mac)."@
    })
    &&& p.banner@ == (if active {
        "This is the active profile. Changes apply automatically when you save — the tunnel reloads in place."@
    } else {
        "Inactive profile."@
    })
}

impl Editor {
    /// The profiles, in the order of their names.
    pub fn rows(&self) -> (out: Vec<SidebarRow>)
        ensures
            out@.len() == self.file.profiles@.len(),
            forall|i: int|
                0 <= i < out@.len() ==> is_row_of(
                    #[trigger] out@[i],
                    self.file.profiles@[i],
                    *self,
                ),
    {
        let mut out: Vec<SidebarRow> = Vec::new();
        for i in 0..self.file.profiles.len()
            invariant
                out@.len() == i,
                forall|k: int|
                    0 <= k < i ==> is_row_of(
                        #[trigger] out@[k],
                        self.file.profiles@[k],
                        *self,
                    ),
        {
            let name = self.file.profiles[i].0.as_str();
            let ssh = &self.file.profiles[i].1.ssh;
            out.push(
                SidebarRow {
                    name: name.to_owned(),
                    is_active: same_text(name, self.file.active.as_str()),
                    is_selected: same_text(name, self.selected.as_str()),
                    login: login(ssh.user.as_str(), ssh.host.as_str(), ssh.port),
                },
            );
        }
        out
    }

    /// What is shown of the shown profile; none where there is no such profile.
    pub fn panel(&self) -> (res: Option<Panel>)
        ensures
            match (res, lookup(self.file.profiles@, self.selected@)) {
                (Some(p), Some(s)) => is_panel_of(p, *self, s),
                (None, None) => true,
                _ => false,
            },
    {
        let profile = match self.file.get(self.selected.as_str()) {
            Some(profile) => profile,
            None => {
                return None;
            },
        };
        let all = listens_on_all(profile.socks.listen_addr.as_str());
        let active = same_text(self.selected.as_str(), self.file.active.as_str());
        let fingerprint = match &profile.ssh.host_key_fingerprint {
            Some(text) => text.clone(),
            None => "(none recorded — trust-on-first-use mode)".to_owned(),
        };
        Some(
            Panel {
                title: self.selected.clone(),
                is_active: active,
                fingerprint,
                can_forget: profile.ssh.host_key_fingerprint.is_some(),
                listens_on_all: all,
                listen_note: if all {
                    "Reachable from the LAN."
                } else {
                    "Loopback only (this Mac)."
                },
                banner: if active {
                    "This is the active profile. Changes apply automatically when you save — the tunnel reloads in place."
                } else {
                    "Inactive profile."
                },
            },
        )
    }

    /// What the button says that makes the shown profile the active one.
    pub fn activate_label(&self) -> (out: String)
        ensures
            out@ == "Set “"@ + self.selected@ + "” as Active"@,
    {
        concat3("Set “", self.selected.as_str(), "” as Active")
    }

    /// What is said where the configuration cannot be saved; none where it can.
    pub fn save_fault(&self) -> (res: Option<String>)
        ensures
            match (res, fault_of(self.file)) {
                (Some(text), Some(fault)) => text@ == "Invalid config: "@ + fault_text(fault),
                (None, None) => true,
                _ => false,
            },
    {
        match self.file.validate() {
            Ok(_) => None,
            Err(e) => Some(concat2("Invalid config: ", e.message().as_str())),
        }
    }
}

// ---------- Fields ----------

/// The passphrase that was typed; none where nothing was.
pub fn typed_passphrase(text: String) -> (out: Option<String>)
    ensures
        match out {
            Some(s) => s@ == text@ && text@.len() > 0,
            None => text@.len() == 0,
        },
{
    if text.as_str().unicode_len() == 0 {
        None
    } else {
        Some(text)
    }
}

/// The passphrase that a key is read with: an empty one counts as none.
pub fn key_passphrase(stored: &Option<String>) -> (out: Option<String>)
    ensures
        match (out, *stored) {
            (Some(s), Some(t)) => s@ == t@ && t@.len() > 0,
            (None, Some(t)) => t@.len() == 0,
            (None, None) => true,
            (Some(_), None) => false,
        },
{
    match stored {
        Some(text) => typed_passphrase(text.clone()),
        None => None,
    }
}

/// The address on which all interfaces are listened on.
pub const ALL_INTERFACES: &'static str = "0.0.0.0";

/// The address on which only this machine is listened to.
pub const LOOPBACK: &'static str = "127.0.0.1";

/// The address to listen on.
pub fn listen_address(all: bool) -> (out: &'static str)
    ensures
        out@ == if all {
            ALL_INTERFACES@
        } else {
            LOOPBACK@
        },
{
    if all {
        ALL_INTERFACES
    } else {
        LOOPBACK
    }
}

/// Whether an address stands for all interfaces.
pub fn listens_on_all(addr: &str) -> (res: bool)
    ensures
        res == (addr@ == ALL_INTERFACES@),
{
    same_text(addr, ALL_INTERFACES)
}

/// The address by which a program on this machine reaches a listener.
pub fn local_address(listen_addr: &str) -> (out: String)
    ensures
        out@ == if listen_addr@ == ALL_INTERFACES@ {
            LOOPBACK@
        } else {
            listen_addr@
        },
{
    if listens_on_all(listen_addr) {
        LOOPBACK.to_owned()
    } else {
        listen_addr.to_owned()
    }
}

/// Sets the address that the active profile listens on for SOCKS5.
pub fn update_listen_addr(file: &mut ConfigFile, addr: &str)
    requires
        old(file).is_ordered(),
    ensures
        final(file).is_ordered(),
        final(file).active == old(file).active,
        same_but(*old(file), *final(file), old(file).active@),
        lookup(final(file).profiles@, old(file).active@) == match lookup(
            old(file).profiles@,
            old(file).active@,
        ) {
            Some(s) => Some(Settings { socks_addr: addr@, ..s }),
            None => None,
        },
{
    let mut profile = match file.get(file.active.as_str()) {
        Some(profile) => profile.duplicate(),
        None => {
            return;
        },
    };
    profile.socks.listen_addr = addr.to_owned();
    let name = file.active.clone();
    file.insert(name, profile);
}

/// Records the host key of a profile, if there is one of that name.
pub fn record_fingerprint(file: &mut ConfigFile, name: &str, fingerprint: String)
    requires
        old(file).is_ordered(),
    ensures
        final(file).is_ordered(),
        final(file).active == old(file).active,
        same_but(*old(file), *final(file), name@),
        lookup(final(file).profiles@, name@) == match lookup(old(file).profiles@, name@) {
            Some(s) => Some(Settings { host_key_fingerprint: Some(fingerprint@), ..s }),
            None => None,
        },
{
    let mut profile = match file.get(name) {
        Some(profile) => profile.duplicate(),
        None => {
            return;
        },
    };
    profile.ssh.host_key_fingerprint = Some(fingerprint);
    file.insert(name.to_owned(), profile);
}

// ---------- Laws ----------

/// A profile can be deleted without leaving the configuration without an active
/// one: after the deletion that `can_delete` allows, the active profile exists.
pub proof fn deletion_keeps_an_active_profile(before: Editor, after: Editor, target: Seq<char>)
    requires
        sorted(after.file.profiles@),
        holds(before.file, before.file.active@),
        before.file.profiles@.len() > 1,
        same_but(before.file, after.file, target),
        after.file.profiles@.len() >= before.file.profiles@.len() - 1,
        after.file.active@ == if before.file.active@ != target {
            before.file.active@
        } else {
            after.file.profiles@[0].0@
        },
    ensures
        holds(after.file, after.file.active@),
{
    if before.file.active@ == target {
        crate::config::first_name_exists(after.file.profiles@);
    } else {
        assert(lookup(before.file.profiles@, before.file.active@) == lookup(
            after.file.profiles@,
            before.file.active@,
        ));
    }
}

/// No change of a field makes a port zero.
pub proof fn edits_keep_ports(s: Settings, edit: Edit)
    requires
        zero_port(s) is None,
    ensures
        zero_port(edited(s, edit)) is None,
{
}

/// What is given is taken as it is; a number that is out of its limits is taken as the
/// nearest within them.
pub proof fn edits_are_taken(s: Settings, edit: Edit)
    ensures
        ({
            let t = edited(s, edit);
            match edit {
                Edit::Host(text) => t.host == text@,
                Edit::User(text) => t.user == text@,
                Edit::KeyPath(text) => t.key_path == text@,
                Edit::SocksAddr(text) => t.socks_addr == text@,
                Edit::HttpAddr(text) => t.http_addr == text@,
                Edit::Passphrase(text) => if text@.len() == 0 {
                    t.key_passphrase is None
                } else {
                    t.key_passphrase == Some(text@)
                },
                Edit::ForgetFingerprint => t.host_key_fingerprint is None,
                Edit::ListenAll(all) => t.socks_addr == if all {
                    "0.0.0.0"@
                } else {
                    "127.0.0.1"@
                },
                Edit::HttpEnabled(on) => t.http_enabled == on,
                Edit::Multiplier(bits) => t.reconnect.backoff_multiplier_bits == bits,
                Edit::Port(n) => is_nearest(n as int, t.port as int, 1, 65535),
                Edit::SocksPort(n) => is_nearest(n as int, t.socks_port as int, 1, 65535),
                Edit::HttpPort(n) => is_nearest(n as int, t.http_port as int, 1, 65535),
                Edit::Keepalive(n) => is_nearest(n as int, t.keepalive_secs as int, 5, 600),
                Edit::InitialBackoff(n) => is_nearest(
                    n as int,
                    t.reconnect.initial_backoff_secs as int,
                    1,
                    60,
                ),
                Edit::MaxBackoff(n) => is_nearest(
                    n as int,
                    t.reconnect.max_backoff_secs as int,
                    1,
                    3600,
                ),
            }
        }),
{
}

/// `m` is within the limits, and no other number within them is nearer to `n`.
pub open spec fn is_nearest(n: int, m: int, low: int, high: int) -> bool {
    &&& low <= m <= high
    &&& low <= n <= high ==> m == n
    &&& n < low ==> m == low
    &&& n > high ==> m == high
}

/// A change of one field leaves every other field as it was.
pub proof fn edits_leave_the_rest(s: Settings, edit: Edit)
    ensures
        ({
            let t = edited(s, edit);
            &&& edit !is Host ==> t.host == s.host
            &&& edit !is Port ==> t.port == s.port
            &&& edit !is User ==> t.user == s.user
            &&& edit !is KeyPath ==> t.key_path == s.key_path
            &&& edit !is Passphrase ==> t.key_passphrase == s.key_passphrase
            &&& edit !is Keepalive ==> t.keepalive_secs == s.keepalive_secs
            &&& edit !is ForgetFingerprint ==> t.host_key_fingerprint == s.host_key_fingerprint
            &&& edit !is ListenAll && edit !is SocksAddr ==> t.socks_addr == s.socks_addr
            &&& edit !is SocksPort ==> t.socks_port == s.socks_port
            &&& edit !is HttpEnabled ==> t.http_enabled == s.http_enabled
            &&& edit !is HttpAddr ==> t.http_addr == s.http_addr
            &&& edit !is HttpPort ==> t.http_port == s.http_port
            &&& edit !is InitialBackoff ==> t.reconnect.initial_backoff_secs
                == s.reconnect.initial_backoff_secs
            &&& edit !is MaxBackoff ==> t.reconnect.max_backoff_secs
                == s.reconnect.max_backoff_secs
            &&& edit !is Multiplier ==> t.reconnect.backoff_multiplier_bits
                == s.reconnect.backoff_multiplier_bits
        }),
{
}

/// A copy gets a name of its own: one that begins with the name of the profile, and
/// that no profile has. No copy with a lower number could have had one.
pub proof fn copies_get_free_names(file: ConfigFile, name: Seq<char>, n: nat, other: nat)
    requires
        free_copy(file, name, 1) == Some(n),
    ensures
        n >= 1,
        lookup(file.profiles@, copy_name(name, n)) is None,
        1 <= other < n ==> lookup(file.profiles@, copy_name(name, other)) is Some,
        stands_at(copy_name(name, n), name, 0),
        copy_name(name, n) != name,
        1 <= other && other != n ==> copy_name(name, n) != copy_name(name, other),
{
    lemma_free_copy(file, name, 1, n, other);
    reveal_strlit("-copy");
    let base = name + "-copy"@;
    let a = copy_name(name, n);
    let b = copy_name(name, other);
    assert(a.subrange(0, name.len() as int) =~= name);
    decimal_is_digits(n);
    decimal_is_digits(other);
    if 1 <= other && other != n && a == b {
        assert(n > 1 ==> a.skip(base.len() as int) =~= decimal(n));
        assert(other > 1 ==> b.skip(base.len() as int) =~= decimal(other));
        assert(n <= 1 ==> a.skip(base.len() as int).len() == 0);
        assert(other <= 1 ==> b.skip(base.len() as int).len() == 0);
        decimal_injective(n, other);
    }
}

proof fn lemma_free_copy(file: ConfigFile, name: Seq<char>, from: nat, n: nat, other: nat)
    requires
        free_copy(file, name, from) == Some(n),
    ensures
        n >= from,
        lookup(file.profiles@, copy_name(name, n)) is None,
        from <= other < n ==> lookup(file.profiles@, copy_name(name, other)) is Some,
    decreases MAX_COPIES - from,
{
    if holds(file, copy_name(name, from)) && from < MAX_COPIES {
        lemma_free_copy(file, name, from + 1, n, other);
    }
}


/// A row is marked as active, or as shown, exactly where its profile is; and what it
/// says of the destination is the user, an at sign, the host, a colon and the port.
pub proof fn rows_are_marked(row: SidebarRow, entry: (String, Profile), e: Editor)
    requires
        is_row_of(row, entry, e),
    ensures
        row.name@ == entry.0@,
        row.is_active <==> row.name@ == e.file.active@,
        row.is_selected <==> row.name@ == e.selected@,
        row.login@ == entry.1@.user + seq!['@'] + entry.1@.host + seq![':'] + decimal(
            entry.1@.port as nat,
        ),
{
    reveal_strlit("@");
    reveal_strlit(":");
    assert("@"@ =~= seq!['@']);
    assert(":"@ =~= seq![':']);
}

/// What is shown of a profile: its name; whether it is active, listens on all interfaces
/// and has a recorded host key; and that key.
pub proof fn panels_tell_the_profile(p: Panel, e: Editor, s: Settings)
    requires
        is_panel_of(p, e, s),
    ensures
        p.title@ == e.selected@,
        p.is_active <==> e.selected@ == e.file.active@,
        p.listens_on_all <==> s.socks_addr == "0.0.0.0"@,
        p.can_forget <==> s.host_key_fingerprint is Some,
        s.host_key_fingerprint is Some ==> p.fingerprint@ == s.host_key_fingerprint->0,
        p.listens_on_all <==> p.listen_note@ == "Reachable from the LAN."@,
{
    reveal_strlit("Reachable from the LAN.");
    reveal_strlit("Loopback only (this Mac).");
    assert("Reachable from the LAN."@.len() != "Loopback only (this Mac)."@.len());
}


} // verus!
