//! The configuration of the tunnel: named profiles, one of which is active.

use crate::text::{concat2, concat3, copy_opt, opt_text, same_text};
use vstd::prelude::*;
use vstd::string::*;

verus! {

// ---------- Profiles ----------

/// Where the tunnel leads, and how it authenticates.
#[derive(Debug, Clone, PartialEq, Eq)]
pub struct SshConfig {
    pub host: String,
    pub port: u16,
    pub user: String,
    pub key_path: String,
    pub key_passphrase: Option<String>,
    pub keepalive_secs: u64,
    /// The host key that was seen first; none until then.
    pub host_key_fingerprint: Option<String>,
}

/// Where SOCKS5 clients connect.
#[derive(Debug, Clone, PartialEq, Eq)]
pub struct SocksConfig {
    pub listen_addr: String,
    pub listen_port: u16,
}

/// Where HTTP clients connect, if they may.
#[derive(Debug, Clone, PartialEq, Eq)]
pub struct HttpConfig {
    pub enabled: bool,
    pub listen_addr: String,
    pub listen_port: u16,
}

/// How long to wait between attempts to connect. The multiplier is kept as the
/// bits of a double.
#[derive(Debug, Clone, Copy, PartialEq, Eq)]
pub struct ReconnectConfig {
    pub initial_backoff_secs: u64,
    pub max_backoff_secs: u64,
    pub backoff_multiplier_bits: u64,
}

/// One way to run the tunnel.
#[derive(Debug, Clone, PartialEq, Eq)]
pub struct Profile {
    pub ssh: SshConfig,
    pub socks: SocksConfig,
    pub http: HttpConfig,
    pub reconnect: ReconnectConfig,
}

/// A profile, as text.
pub struct Settings {
    pub host: Seq<char>,
    pub port: u16,
    pub user: Seq<char>,
    pub key_path: Seq<char>,
    pub key_passphrase: Option<Seq<char>>,
    pub keepalive_secs: u64,
    pub host_key_fingerprint: Option<Seq<char>>,
    pub socks_addr: Seq<char>,
    pub socks_port: u16,
    pub http_enabled: bool,
    pub http_addr: Seq<char>,
    pub http_port: u16,
    pub reconnect: ReconnectConfig,
}

impl View for Profile {
    type V = Settings;

    open spec fn view(&self) -> Settings {
        Settings {
            host: self.ssh.host@,
            port: self.ssh.port,
            user: self.ssh.user@,
            key_path: self.ssh.key_path@,
            key_passphrase: opt_text(self.ssh.key_passphrase),
            keepalive_secs: self.ssh.keepalive_secs,
            host_key_fingerprint: opt_text(self.ssh.host_key_fingerprint),
            socks_addr: self.socks.listen_addr@,
            socks_port: self.socks.listen_port,
            http_enabled: self.http.enabled,
            http_addr: self.http.listen_addr@,
            http_port: self.http.listen_port,
            reconnect: self.reconnect,
        }
    }
}

/// The multiplier of a new profile: two, as the bits of a double.
pub const DEFAULT_MULTIPLIER_BITS: u64 = 0x4000000000000000;

/// A new profile of a user with the given home directory.
pub open spec fn default_settings(home: Seq<char>) -> Settings {
    Settings {
        host: "proxy.example.com"@,
        port: 22222,
        user: "tunneluser"@,
        key_path: home + "/.ssh/id_ed25519"@,
        key_passphrase: None,
        keepalive_secs: 30,
        host_key_fingerprint: None,
        socks_addr: "0.0.0.0"@,
        socks_port: 1080,
        http_enabled: true,
        http_addr: "0.0.0.0"@,
        http_port: 8080,
        reconnect: ReconnectConfig {
            initial_backoff_secs: 1,
            max_backoff_secs: 60,
            backoff_multiplier_bits: DEFAULT_MULTIPLIER_BITS,
        },
    }
}

impl HttpConfig {
    /// The listener of a profile that does not speak of one.
    pub fn standard() -> (out: HttpConfig)
        ensures
            out.enabled,
            out.listen_addr@ == "0.0.0.0"@,
            out.listen_port == 8080,
    {
        HttpConfig { enabled: true, listen_addr: "0.0.0.0".to_owned(), listen_port: 8080 }
    }
}

impl Profile {
    /// A new profile.
    pub fn standard(home: &str) -> (out: Profile)
        ensures
            out@ == default_settings(home@),
    {
        Profile {
            ssh: SshConfig {
                host: "proxy.example.com".to_owned(),
                port: 22222,
                user: "tunneluser".to_owned(),
                key_path: concat2(home, "/.ssh/id_ed25519"),
                key_passphrase: None,
                keepalive_secs: 30,
                host_key_fingerprint: None,
            },
            socks: SocksConfig { listen_addr: "0.0.0.0".to_owned(), listen_port: 1080 },
            http: HttpConfig::standard(),
            reconnect: ReconnectConfig {
                initial_backoff_secs: 1,
                max_backoff_secs: 60,
                backoff_multiplier_bits: DEFAULT_MULTIPLIER_BITS,
            },
        }
    }

    /// A copy of the profile.
    pub fn duplicate(&self) -> (out: Profile)
        ensures
            out@ == self@,
    {
        Profile {
            ssh: SshConfig {
                host: self.ssh.host.clone(),
                port: self.ssh.port,
                user: self.ssh.user.clone(),
                key_path: self.ssh.key_path.clone(),
                key_passphrase: copy_opt(&self.ssh.key_passphrase),
                keepalive_secs: self.ssh.keepalive_secs,
                host_key_fingerprint: copy_opt(&self.ssh.host_key_fingerprint),
            },
            socks: SocksConfig {
                listen_addr: self.socks.listen_addr.clone(),
                listen_port: self.socks.listen_port,
            },
            http: HttpConfig {
                enabled: self.http.enabled,
                listen_addr: self.http.listen_addr.clone(),
                listen_port: self.http.listen_port,
            },
            reconnect: self.reconnect,
        }
    }
}

// ---------- Order of names ----------

/// `a` comes in front of `b`: by the first character in which they differ, or
/// because it is the beginning of `b`.
pub open spec fn precedes(a: Seq<char>, b: Seq<char>) -> bool
    decreases a.len(),
{
    if b.len() == 0 {
        false
    } else if a.len() == 0 {
        true
    } else if a[0] == b[0] {
        precedes(a.drop_first(), b.drop_first())
    } else {
        a[0] < b[0]
    }
}

proof fn lemma_precedes_not_equal(a: Seq<char>)
    ensures
        !precedes(a, a),
    decreases a.len(),
{
    if a.len() > 0 {
        lemma_precedes_not_equal(a.drop_first());
    }
}

proof fn lemma_precedes_transitive(a: Seq<char>, b: Seq<char>, c: Seq<char>)
    requires
        precedes(a, b),
        precedes(b, c),
    ensures
        precedes(a, c),
    decreases a.len(),
{
    if a.len() > 0 && b.len() > 0 && c.len() > 0 && a[0] == b[0] && b[0] == c[0] {
        lemma_precedes_transitive(a.drop_first(), b.drop_first(), c.drop_first());
    }
}

proof fn lemma_precedes_total(a: Seq<char>, b: Seq<char>)
    requires
        a != b,
    ensures
        precedes(a, b) || precedes(b, a),
    decreases a.len(),
{
    if a.len() == 0 && b.len() == 0 {
        assert(a =~= b);
    } else if a.len() > 0 && b.len() > 0 && a[0] == b[0] {
        if a.drop_first() == b.drop_first() {
            assert(a =~= seq![a[0]] + a.drop_first());
            assert(b =~= seq![b[0]] + b.drop_first());
            assert(a =~= b);
        }
        lemma_precedes_total(a.drop_first(), b.drop_first());
    }
}

fn comes_before(a: &str, b: &str) -> (res: bool)
    ensures
        res == precedes(a@, b@),
{
    let x = crate::text::chars_of(a);
    let y = crate::text::chars_of(b);
    let mut i: usize = 0;
    assert(x@.skip(0) =~= x@);
    assert(y@.skip(0) =~= y@);
    while i < x.len() && i < y.len()
        invariant
            x@ == a@,
            y@ == b@,
            i <= x.len(),
            i <= y.len(),
            precedes(x@, y@) == precedes(x@.skip(i as int), y@.skip(i as int)),
        decreases x.len() - i,
    {
        assert(x@.skip(i as int).drop_first() =~= x@.skip(i + 1));
        assert(y@.skip(i as int).drop_first() =~= y@.skip(i + 1));
        if x[i] != y[i] {
            return x[i] < y[i];
        }
        i = i + 1;
    }
    i < y.len()
}

// ---------- The file ----------

/// The configuration file. The profiles stand in the order of their names, and no
/// name stands twice.
#[derive(Debug, Clone, PartialEq, Eq)]
pub struct ConfigFile {
    /// The name of the profile that the tunnel runs.
    pub active: String,
    pub profiles: Vec<(String, Profile)>,
}

/// The names stand in their order, each of them once.
pub open spec fn sorted(v: Seq<(String, Profile)>) -> bool {
    forall|i: int, j: int|
        0 <= i < j < v.len() ==> precedes((#[trigger] v[i]).0@, (#[trigger] v[j]).0@)
}

/// The place of a name.
pub open spec fn place(v: Seq<(String, Profile)>, name: Seq<char>) -> Option<int>
    decreases v.len(),
{
    if v.len() == 0 {
        None
    } else if v.last().0@ == name {
        Some(v.len() - 1)
    } else {
        place(v.drop_last(), name)
    }
}

/// The profile with a name.
pub open spec fn lookup(v: Seq<(String, Profile)>, name: Seq<char>) -> Option<Settings> {
    match place(v, name) {
        Some(i) => Some(v[i].1@),
        None => None,
    }
}

proof fn lemma_place(v: Seq<(String, Profile)>, name: Seq<char>)
    ensures
        match place(v, name) {
            Some(i) => 0 <= i < v.len() && v[i].0@ == name,
            None => forall|i: int| 0 <= i < v.len() ==> (#[trigger] v[i]).0@ != name,
        },
    decreases v.len(),
{
    if v.len() > 0 && v.last().0@ != name {
        lemma_place(v.drop_last(), name);
        if place(v, name) is None {
            assert forall|i: int| 0 <= i < v.len() implies (#[trigger] v[i]).0@ != name by {
                if i < v.len() - 1 {
                    assert(v.drop_last()[i] == v[i]);
                }
            }
        }
    }
}

proof fn lemma_unique(v: Seq<(String, Profile)>, i: int)
    requires
        sorted(v),
        0 <= i < v.len(),
    ensures
        place(v, v[i].0@) == Some(i),
{
    lemma_place(v, v[i].0@);
    let k = place(v, v[i].0@)->0;
    if place(v, v[i].0@) is None {
        assert(v[i].0@ != v[i].0@);
    } else if k != i {
        lemma_precedes_not_equal(v[i].0@);
        assert(v[k].0@ == v[i].0@);
    }
}

proof fn lemma_lookup(v: Seq<(String, Profile)>, name: Seq<char>, i: int)
    requires
        sorted(v),
        0 <= i < v.len(),
        v[i].0@ == name,
    ensures
        lookup(v, name) == Some(v[i].1@),
{
    lemma_unique(v, i);
}

/// The first name of a list stands for a profile of it.
pub proof fn first_name_exists(v: Seq<(String, Profile)>)
    requires
        sorted(v),
        v.len() > 0,
    ensures
        lookup(v, v[0].0@) is Some,
{
    lemma_lookup(v, v[0].0@, 0);
}

/// What is wrong with a configuration, as text.
pub enum Fault {
    /// The active profile does not exist.
    Dangling(Seq<char>),
    /// A profile has a port of zero: its name, and which port it is.
    ZeroPort(Seq<char>, PortKind),
}

/// The ports of a profile.
#[derive(Debug, Clone, Copy, PartialEq, Eq)]
pub enum PortKind {
    Ssh,
    Socks,
    Http,
}

/// What is wrong with a configuration.
#[derive(Debug, PartialEq, Eq)]
pub enum ConfigError {
    Dangling(String),
    ZeroPort(String, PortKind),
}

impl View for ConfigError {
    type V = Fault;

    open spec fn view(&self) -> Fault {
        match *self {
            ConfigError::Dangling(name) => Fault::Dangling(name@),
            ConfigError::ZeroPort(name, kind) => Fault::ZeroPort(name@, kind),
        }
    }
}

/// The message of a fault.
pub open spec fn fault_text(fault: Fault) -> Seq<char> {
    match fault {
        Fault::Dangling(name) => "active profile '"@ + name
            + "' does not exist in profiles list"@,
        Fault::ZeroPort(name, kind) => "profile '"@ + name + (match kind {
            PortKind::Ssh => "': SSH port must not be 0"@,
            PortKind::Socks => "': SOCKS5 port must not be 0"@,
            PortKind::Http => "': HTTP port must not be 0"@,
        }),
    }
}

impl ConfigError {
    /// The message of the error.
    pub fn message(&self) -> (out: String)
        ensures
            out@ == fault_text(self@),
    {
        match self {
            ConfigError::Dangling(name) => concat3(
                "active profile '",
                name.as_str(),
                "' does not exist in profiles list",
            ),
            ConfigError::ZeroPort(name, kind) => {
                let mut out = concat2("profile '", name.as_str());
                match kind {
                    PortKind::Ssh => out.append("': SSH port must not be 0"),
                    PortKind::Socks => out.append("': SOCKS5 port must not be 0"),
                    PortKind::Http => out.append("': HTTP port must not be 0"),
                }
                out
            },
        }
    }
}

/// The first port of a profile that is zero.
pub open spec fn zero_port(s: Settings) -> Option<PortKind> {
    if s.port == 0 {
        Some(PortKind::Ssh)
    } else if s.socks_port == 0 {
        Some(PortKind::Socks)
    } else if s.http_port == 0 {
        Some(PortKind::Http)
    } else {
        None
    }
}

/// The first port of a list of profiles that is zero.
pub open spec fn first_zero_port(v: Seq<(String, Profile)>) -> Option<Fault>
    decreases v.len(),
{
    if v.len() == 0 {
        None
    } else if zero_port(v[0].1@) is Some {
        Some(Fault::ZeroPort(v[0].0@, zero_port(v[0].1@)->0))
    } else {
        first_zero_port(v.drop_first())
    }
}

/// What is wrong with a configuration, if anything.
pub open spec fn fault_of(file: ConfigFile) -> Option<Fault> {
    if lookup(file.profiles@, file.active@) is None {
        Some(Fault::Dangling(file.active@))
    } else {
        first_zero_port(file.profiles@)
    }
}

impl ConfigFile {
    /// The profiles stand in order.
    pub open spec fn is_ordered(&self) -> bool {
        sorted(self.profiles@)
    }

    /// A new configuration: one profile, and it is active.
    pub fn standard(home: &str) -> (out: ConfigFile)
        ensures
            out.is_ordered(),
            out.active@ == "default"@,
            out.profiles@.len() == 1,
            lookup(out.profiles@, "default"@) == Some(default_settings(home@)),
            fault_of(out) is None,
    {
        let mut profiles: Vec<(String, Profile)> = Vec::new();
        profiles.push(("default".to_owned(), Profile::standard(home)));
        proof {
            lemma_lookup(profiles@, "default"@, 0);
            assert(profiles@.drop_first() =~= Seq::empty());
            reveal_with_fuel(first_zero_port, 2);
        }
        ConfigFile { active: "default".to_owned(), profiles }
    }

    /// A configuration with the given profiles, in their order.
    pub fn from_profiles(active: String, profiles: Vec<(String, Profile)>) -> (out: ConfigFile)
        ensures
            out.is_ordered(),
            out.active@ == active@,
            forall|name: Seq<char>| #[trigger]
                lookup(out.profiles@, name) == lookup(profiles@, name),
    {
        let mut out = ConfigFile { active, profiles: Vec::new() };
        for i in 0..profiles.len()
            invariant
                out.is_ordered(),
                out.active@ == active@,
                forall|name: Seq<char>| #[trigger]
                    lookup(out.profiles@, name) == lookup(profiles@.take(i as int), name),
        {
            let ghost before = out.profiles@;
            out.insert(profiles[i].0.clone(), profiles[i].1.duplicate());
            proof {
                let next = profiles@.take(i + 1);
                assert(next.drop_last() =~= profiles@.take(i as int));
                assert forall|name: Seq<char>| #[trigger]
                    lookup(out.profiles@, name) == lookup(next, name) by {
                    assert(lookup(before, name) == lookup(profiles@.take(i as int), name));
                    lemma_place(profiles@.take(i as int), name);
                }
            }
        }
        assert(profiles@.take(profiles.len() as int) =~= profiles@);
        out
    }

    /// The place of a name among the profiles.
    fn find(&self, name: &str) -> (res: Option<usize>)
        ensures
            match (res, place(self.profiles@, name@)) {
                (Some(i), Some(k)) => i == k && i < self.profiles.len(),
                (None, None) => true,
                _ => false,
            },
    {
        let mut i: usize = self.profiles.len();
        assert(self.profiles@.take(i as int) =~= self.profiles@);
        while i > 0
            invariant
                i <= self.profiles.len(),
                place(self.profiles@, name@) == place(self.profiles@.take(i as int), name@),
            decreases i,
        {
            let ghost part = self.profiles@.take(i as int);
            assert(part.drop_last() =~= self.profiles@.take(i - 1));
            i = i - 1;
            if same_text(self.profiles[i].0.as_str(), name) {
                return Some(i);
            }
        }
        None
    }

    /// Whether there is a profile with this name.
    pub fn contains_key(&self, name: &str) -> (res: bool)
        ensures
            res == (lookup(self.profiles@, name@) is Some),
    {
        self.find(name).is_some()
    }

    /// The profile with this name.
    pub fn get(&self, name: &str) -> (res: Option<&Profile>)
        ensures
            match (res, lookup(self.profiles@, name@)) {
                (Some(p), Some(wanted)) => p@ == wanted,
                (None, None) => true,
                _ => false,
            },
    {
        match self.find(name) {
            Some(i) => Some(&self.profiles[i].1),
            None => None,
        }
    }

    /// Puts a profile under a name, in place of the one that had it.
    pub fn insert(&mut self, name: String, profile: Profile)
        requires
            old(self).is_ordered(),
        ensures
            final(self).is_ordered(),
            final(self).active == old(self).active,
            forall|other: Seq<char>| #[trigger]
                lookup(final(self).profiles@, other) == if other == name@ {
                    Some(profile@)
                } else {
                    lookup(old(self).profiles@, other)
                },
            final(self).profiles@.len() == old(self).profiles@.len() + if lookup(
                old(self).profiles@,
                name@,
            ) is Some {
                0int
            } else {
                1int
            },
    {
        let ghost before = self.profiles@;
        let ghost wanted = profile@;
        let ghost key = name@;
        if let Some(i) = self.find(name.as_str()) {
            proof {
                lemma_place(before, key);
            }
            self.profiles.set(i, (name, profile));
            proof {
                lemma_replaced(before, self.profiles@, i as int, wanted);
            }
            return;
        }
        let mut at: usize = 0;
        while at < self.profiles.len() && comes_before(self.profiles[at].0.as_str(), name.as_str())
            invariant
                self.profiles@ == before,
                self.active == old(self).active,
                name@ == key,
                at <= before.len(),
                forall|k: int| 0 <= k < at ==> precedes((#[trigger] before[k]).0@, key),
            decreases before.len() - at,
        {
            at = at + 1;
        }
        self.profiles.insert(at, (name, profile));
        proof {
            lemma_inserted(before, self.profiles@, at as int, key, wanted);
        }
    }

    /// Takes the profile with this name away.
    pub fn remove(&mut self, name: &str)
        requires
            old(self).is_ordered(),
        ensures
            final(self).is_ordered(),
            final(self).active == old(self).active,
            forall|other: Seq<char>| #[trigger]
                lookup(final(self).profiles@, other) == if other == name@ {
                    None
                } else {
                    lookup(old(self).profiles@, other)
                },
            final(self).profiles@.len() == old(self).profiles@.len() - if lookup(
                old(self).profiles@,
                name@,
            ) is Some {
                1int
            } else {
                0int
            },
    {
        let ghost before = self.profiles@;
        if let Some(i) = self.find(name) {
            proof {
                lemma_place(before, name@);
            }
            self.profiles.remove(i);
            proof {
                lemma_removed(before, self.profiles@, i as int);
            }
        }
    }

    /// Checks the configuration: the active profile exists, and no port is zero.
    pub fn validate(&self) -> (res: Result<(), ConfigError>)
        ensures
            match (res, fault_of(*self)) {
                (Ok(_), None) => true,
                (Err(e), Some(fault)) => e@ == fault,
                _ => false,
            },
    {
        if !self.contains_key(self.active.as_str()) {
            return Err(ConfigError::Dangling(self.active.clone()));
        }
        let ghost all = self.profiles@;
        assert(all.skip(0) =~= all);
        for i in 0..self.profiles.len()
            invariant
                all == self.profiles@,
                first_zero_port(all) == first_zero_port(all.skip(i as int)),
                lookup(all, self.active@) is Some,
        {
            assert(all.skip(i as int).drop_first() =~= all.skip(i + 1));
            let profile = &self.profiles[i].1;
            let name = &self.profiles[i].0;
            if profile.ssh.port == 0 {
                return Err(ConfigError::ZeroPort(name.clone(), PortKind::Ssh));
            }
            if profile.socks.listen_port == 0 {
                return Err(ConfigError::ZeroPort(name.clone(), PortKind::Socks));
            }
            if profile.http.listen_port == 0 {
                return Err(ConfigError::ZeroPort(name.clone(), PortKind::Http));
            }
        }
        Ok(())
    }

    /// The profile that the tunnel runs.
    pub fn active_profile(&self) -> (res: Result<&Profile, String>)
        ensures
            match (res, lookup(self.profiles@, self.active@)) {
                (Ok(p), Some(wanted)) => p@ == wanted,
                (Err(e), None) => e@ == "active profile '"@ + self.active@ + "' missing"@,
                _ => false,
            },
    {
        match self.get(self.active.as_str()) {
            Some(p) => Ok(p),
            None => Err(concat3("active profile '", self.active.as_str(), "' missing")),
        }
    }
}

proof fn lemma_replaced(
    before: Seq<(String, Profile)>,
    after: Seq<(String, Profile)>,
    i: int,
    wanted: Settings,
)
    requires
        sorted(before),
        0 <= i < before.len(),
        after.len() == before.len(),
        forall|k: int| 0 <= k < before.len() && k != i ==> #[trigger] after[k] == before[k],
        after[i].0@ == before[i].0@,
        after[i].1@ == wanted,
    ensures
        sorted(after),
        forall|other: Seq<char>| #[trigger]
            lookup(after, other) == if other == before[i].0@ {
                Some(wanted)
            } else {
                lookup(before, other)
            },
{
    assert forall|k: int| 0 <= k < after.len() implies (#[trigger] after[k]).0@ == before[k].0@ by {}
    assert forall|a: int, b: int| 0 <= a < b < after.len() implies precedes(
        (#[trigger] after[a]).0@,
        (#[trigger] after[b]).0@,
    ) by {
        assert(precedes(before[a].0@, before[b].0@));
    }
    assert forall|other: Seq<char>| #[trigger]
        lookup(after, other) == (if other == before[i].0@ {
            Some(wanted)
        } else {
            lookup(before, other)
        }) by {
        lemma_place(before, other);
        lemma_place(after, other);
        if other == before[i].0@ {
            lemma_lookup(after, other, i);
        } else if let Some(k) = place(before, other) {
            assert(after[k] == before[k]);
            lemma_lookup(after, other, k);
        } else if let Some(k) = place(after, other) {
            assert(before[k].0@ != other);
        }
    }
}

proof fn lemma_inserted(
    before: Seq<(String, Profile)>,
    after: Seq<(String, Profile)>,
    at: int,
    key: Seq<char>,
    wanted: Settings,
)
    requires
        sorted(before),
        place(before, key) is None,
        0 <= at <= before.len(),
        after.len() == before.len() + 1,
        forall|k: int| 0 <= k < at ==> #[trigger] after[k] == before[k],
        forall|k: int| at < k < after.len() ==> #[trigger] after[k] == before[k - 1],
        after[at].0@ == key,
        after[at].1@ == wanted,
        forall|k: int| 0 <= k < at ==> precedes((#[trigger] before[k]).0@, key),
        at < before.len() ==> !precedes(before[at].0@, key),
    ensures
        sorted(after),
        forall|other: Seq<char>| #[trigger]
            lookup(after, other) == if other == key {
                Some(wanted)
            } else {
                lookup(before, other)
            },
{
    lemma_place(before, key);
    assert forall|k: int| at <= k < before.len() implies precedes(
        key,
        (#[trigger] before[k]).0@,
    ) by {
        assert(before[at].0@ != key);
        lemma_precedes_total(before[at].0@, key);
        if k > at {
            assert(precedes(before[at].0@, before[k].0@));
            lemma_precedes_transitive(key, before[at].0@, before[k].0@);
        }
    }
    assert forall|a: int, b: int| 0 <= a < b < after.len() implies precedes(
        (#[trigger] after[a]).0@,
        (#[trigger] after[b]).0@,
    ) by {
        if b < at {
            assert(precedes(before[a].0@, before[b].0@));
        } else if a < at && b == at {
            assert(precedes(before[a].0@, key));
        } else if a < at {
            assert(precedes(before[a].0@, before[b - 1].0@));
        } else if a == at {
            assert(precedes(key, before[b - 1].0@));
        } else {
            assert(precedes(before[a - 1].0@, before[b - 1].0@));
        }
    }
    assert forall|other: Seq<char>| #[trigger]
        lookup(after, other) == (if other == key {
            Some(wanted)
        } else {
            lookup(before, other)
        }) by {
        lemma_place(before, other);
        lemma_place(after, other);
        if other == key {
            lemma_lookup(after, other, at);
        } else if let Some(k) = place(before, other) {
            if k < at {
                assert(after[k] == before[k]);
                lemma_lookup(after, other, k);
            } else {
                assert(after[k + 1] == before[k]);
                lemma_lookup(after, other, k + 1);
            }
        } else if let Some(k) = place(after, other) {
            if k < at {
                assert(before[k].0@ != other);
            } else if k > at {
                assert(before[k - 1].0@ != other);
            }
        }
    }
}

proof fn lemma_removed(before: Seq<(String, Profile)>, after: Seq<(String, Profile)>, i: int)
    requires
        sorted(before),
        0 <= i < before.len(),
        after == before.remove(i),
    ensures
        sorted(after),
        forall|other: Seq<char>| #[trigger]
            lookup(after, other) == if other == before[i].0@ {
                None
            } else {
                lookup(before, other)
            },
{
    assert forall|a: int, b: int| 0 <= a < b < after.len() implies precedes(
        (#[trigger] after[a]).0@,
        (#[trigger] after[b]).0@,
    ) by {
        let x = if a < i {
            a
        } else {
            a + 1
        };
        let y = if b < i {
            b
        } else {
            b + 1
        };
        assert(precedes(before[x].0@, before[y].0@));
    }
    assert forall|other: Seq<char>| #[trigger]
        lookup(after, other) == (if other == before[i].0@ {
            None
        } else {
            lookup(before, other)
        }) by {
        lemma_place(before, other);
        lemma_place(after, other);
        lemma_unique(before, i);
        if let Some(k) = place(after, other) {
            let x = if k < i {
                k
            } else {
                k + 1
            };
            assert(after[k] == before[x]);
            lemma_unique(before, x);
        } else if let Some(k) = place(before, other) {
            if k != i {
                let x = if k < i {
                    k
                } else {
                    k - 1
                };
                assert(after[x] == before[k]);
            }
        }
    }
}

/// A profile is found under its name, and under no other: a sorted list holds exactly
/// the profiles that stand in it.
pub proof fn profiles_are_found(v: Seq<(String, Profile)>, name: Seq<char>, i: int)
    requires
        sorted(v),
        0 <= i < v.len(),
    ensures
        lookup(v, v[i].0@) == Some(v[i].1@),
        lookup(v, name) is Some <==> exists|k: int|
            0 <= k < v.len() && (#[trigger] v[k]).0@ == name,
{
    lemma_lookup(v, v[i].0@, i);
    lemma_place(v, name);
    if let Some(k) = place(v, name) {
        assert(v[k].0@ == name);
    }
}

/// Names are ordered as in a dictionary: by the first character that differs, and a
/// name comes in front of those that go on behind it. Of two names exactly one comes
/// first.
pub proof fn names_are_ordered(front: Seq<char>, a: Seq<char>, b: Seq<char>, x: char, y: char)
    ensures
        x < y ==> precedes(front + seq![x] + a, front + seq![y] + b),
        precedes(front, front + seq![x] + a),
        !precedes(a, a),
        a != b ==> (precedes(a, b) <==> !precedes(b, a)),
    decreases front.len(),
{
    lemma_precedes_not_equal(a);
    if a != b {
        lemma_precedes_total(a, b);
        if precedes(a, b) && precedes(b, a) {
            lemma_precedes_transitive(a, b, a);
        }
    }
    let s = front + seq![x] + a;
    let t = front + seq![y] + b;
    if front.len() > 0 {
        let rest = front.drop_first();
        names_are_ordered(rest, a, b, x, y);
        assert(s.drop_first() =~= rest + seq![x] + a);
        assert(t.drop_first() =~= rest + seq![y] + b);
    }
}

/// A configuration is in order exactly where the active profile exists and every port of
/// every profile is above zero; an active profile that does not exist is told first.
pub proof fn configurations_in_order(file: ConfigFile)
    ensures
        fault_of(file) is None <==> lookup(file.profiles@, file.active@) is Some && forall|i: int|
            0 <= i < file.profiles@.len() ==> (#[trigger] file.profiles@[i]).1@.port > 0
                && file.profiles@[i].1@.socks_port > 0 && file.profiles@[i].1@.http_port > 0,
        lookup(file.profiles@, file.active@) is None ==> fault_of(file) == Some(
            Fault::Dangling(file.active@),
        ),
        fault_of(file) matches Some(Fault::ZeroPort(name, kind)) ==> exists|i: int|
            0 <= i < file.profiles@.len() && (#[trigger] file.profiles@[i]).0@ == name && match kind {
                PortKind::Ssh => file.profiles@[i].1@.port == 0,
                PortKind::Socks => file.profiles@[i].1@.socks_port == 0,
                PortKind::Http => file.profiles@[i].1@.http_port == 0,
            },
{
    lemma_zero_port(file.profiles@);
}

proof fn lemma_zero_port(v: Seq<(String, Profile)>)
    ensures
        first_zero_port(v) is None <==> forall|i: int|
            0 <= i < v.len() ==> (#[trigger] v[i]).1@.port > 0 && v[i].1@.socks_port > 0
                && v[i].1@.http_port > 0,
        first_zero_port(v) matches Some(f) ==> f is ZeroPort,
        first_zero_port(v) matches Some(Fault::ZeroPort(name, kind)) ==> exists|i: int|
            0 <= i < v.len() && (#[trigger] v[i]).0@ == name && match kind {
                PortKind::Ssh => v[i].1@.port == 0,
                PortKind::Socks => v[i].1@.socks_port == 0,
                PortKind::Http => v[i].1@.http_port == 0,
            },
    decreases v.len(),
{
    if v.len() > 0 {
        let rest = v.drop_first();
        lemma_zero_port(rest);
        assert(v[0] == v[0]);
        assert forall|i: int| 0 <= i < rest.len() implies #[trigger] rest[i] == v[i + 1] by {}
        if zero_port(v[0].1@) is None {
            if first_zero_port(rest) is None {
                assert forall|i: int| 0 <= i < v.len() implies (#[trigger] v[i]).1@.port > 0
                    && v[i].1@.socks_port > 0 && v[i].1@.http_port > 0 by {
                    if i > 0 {
                        assert(rest[i - 1] == v[i]);
                    }
                }
            }
        }
    }
}


} // verus!
