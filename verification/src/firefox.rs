//! The managed browser: finding it, locking it to the tunnel, installing it, and
//! taking it away again.

use crate::applescript::{script_escaped, trash_script};
use crate::autolaunch::{below, join_path};
use crate::numbers::{decimal, decimal_text};
use crate::text::{
    after_last, concat2, concat3, opt_text, split_lines, stands_at, starts_with, take_after_last,
    texts, trim, trimmed, lines,
};
use vstd::prelude::*;
use vstd::string::*;

verus! {

/// Where the browser is installed for all users.
pub const SYSTEM_BUNDLE: &'static str = "/Applications/Firefox.app";

/// Where the latest version is downloaded.
pub const DOWNLOAD_URL: &'static str = "https://download.mozilla.org/?product=firefox-latest-ssl&os=osx&lang=en-US";

/// Where the policy stands inside the browser's bundle.
pub const POLICY_DIRECTORY: &'static str = "Contents/Resources/distribution";

/// The command that installs Homebrew.
pub const HOMEBREW_COMMAND: &'static str = "/bin/bash -c \"$(curl -fsSL https://raw.githubusercontent.com/Homebrew/install/HEAD/install.sh)\"";

// ---------- Finding it ----------

/// What was found of the browser.
#[derive(Debug, Clone)]
pub struct FirefoxInfo {
    pub path: Option<String>,
    pub version: Option<String>,
    pub brew: Option<String>,
}

impl FirefoxInfo {
    /// Whether the browser is there.
    pub fn installed(&self) -> (res: bool)
        ensures
            res == (self.path is Some),
    {
        self.path.is_some()
    }
}

/// What a look around the machine brought.
pub struct Probe {
    /// The home directory, where it is known.
    pub home: Option<String>,
    /// Whether the browser is installed for all users.
    pub system_bundle: bool,
    /// Whether the browser is installed below the home directory.
    pub home_bundle: bool,
    /// What was printed of the version of the browser that was found; none where
    /// it could not be read.
    pub version_output: Option<String>,
    /// Whether `/opt/homebrew/bin/brew` is there.
    pub arm_brew: bool,
    /// Whether `/usr/local/bin/brew` is there.
    pub intel_brew: bool,
}

/// Where the browser below a home directory is.
pub open spec fn home_bundle(home: Seq<char>) -> Seq<char> {
    home + "/Applications/Firefox.app"@
}

/// The browser below a home directory.
pub fn home_bundle_path(home: &str) -> (out: String)
    ensures
        out@ == home_bundle(home@),
{
    concat2(home, "/Applications/Firefox.app")
}

/// The browser that is used: the one for all users, before the one of the user.
pub open spec fn bundle_of(probe: Probe) -> Option<Seq<char>> {
    if probe.system_bundle {
        Some(SYSTEM_BUNDLE@)
    } else if probe.home is Some && probe.home_bundle {
        Some(home_bundle(probe.home->0@))
    } else {
        None
    }
}

/// The version that was printed, without the white space around it.
pub open spec fn version_of(output: Option<Seq<char>>) -> Option<Seq<char>> {
    match output {
        Some(text) => if trimmed(text).len() == 0 {
            None
        } else {
            Some(trimmed(text))
        },
        None => None,
    }
}

/// The Homebrew that is used.
pub open spec fn brew_of(probe: Probe) -> Option<Seq<char>> {
    if probe.arm_brew {
        Some("/opt/homebrew/bin/brew"@)
    } else if probe.intel_brew {
        Some("/usr/local/bin/brew"@)
    } else {
        None
    }
}

fn read_firefox_version(output: &Option<String>) -> (res: Option<String>)
    ensures
        opt_text(res) == version_of(opt_text(*output)),
{
    match output {
        Some(text) => {
            let version = trim(text.as_str());
            if version.as_str().unicode_len() == 0 {
                None
            } else {
                Some(version)
            }
        },
        None => None,
    }
}

fn locate_firefox_bundle(probe: &Probe) -> (res: Option<String>)
    ensures
        opt_text(res) == bundle_of(*probe),
{
    if probe.system_bundle {
        return Some(SYSTEM_BUNDLE.to_owned());
    }
    match &probe.home {
        Some(home) => {
            if probe.home_bundle {
                Some(home_bundle_path(home.as_str()))
            } else {
                None
            }
        },
        None => None,
    }
}

fn locate_brew(probe: &Probe) -> (res: Option<String>)
    ensures
        opt_text(res) == brew_of(*probe),
{
    if probe.arm_brew {
        Some("/opt/homebrew/bin/brew".to_owned())
    } else if probe.intel_brew {
        Some("/usr/local/bin/brew".to_owned())
    } else {
        None
    }
}

/// Sums up a look around the machine. A version belongs to a browser that is there.
pub fn detect(probe: &Probe) -> (out: FirefoxInfo)
    ensures
        opt_text(out.path) == bundle_of(*probe),
        opt_text(out.version) == (if bundle_of(*probe) is Some {
            version_of(opt_text(probe.version_output))
        } else {
            None
        }),
        opt_text(out.brew) == brew_of(*probe),
{
    let path = locate_firefox_bundle(probe);
    let version = if path.is_some() {
        read_firefox_version(&probe.version_output)
    } else {
        None
    };
    FirefoxInfo { path, version, brew: locate_brew(probe) }
}

/// What the menu says of the browser.
pub open spec fn label_text(path: Option<Seq<char>>, version: Option<Seq<char>>) -> Seq<char> {
    match (path, version) {
        (Some(p), Some(v)) => "Firefox "@ + v + " — "@ + p,
        (Some(p), None) => "Firefox installed at "@ + p,
        (None, _) => "Firefox is not installed"@,
    }
}

impl FirefoxInfo {
    /// What the menu says of the browser.
    pub fn label(&self) -> (out: String)
        ensures
            out@ == label_text(opt_text(self.path), opt_text(self.version)),
    {
        match (&self.path, &self.version) {
            (Some(p), Some(v)) => {
                let mut out = concat3("Firefox ", v.as_str(), " — ");
                out.append(p.as_str());
                out
            },
            (Some(p), None) => concat2("Firefox installed at ", p.as_str()),
            (None, _) => "Firefox is not installed".to_owned(),
        }
    }

    /// What the menu item that installs the browser says.
    pub fn install_label(&self) -> (out: &'static str)
        ensures
            out@ == (if self.path is Some {
                "Reinstall / update Firefox (latest from mozilla.org)"@
            } else {
                "Install Firefox (latest from mozilla.org)"@
            }),
    {
        if self.installed() {
            "Reinstall / update Firefox (latest from mozilla.org)"
        } else {
            "Install Firefox (latest from mozilla.org)"
        }
    }
}

// ---------- The policy ----------

/// A fixed value of the policy.
#[derive(Debug, Clone, Copy, PartialEq, Eq)]
pub enum Pref {
    Flag(bool),
    Number(i64),
    Text(&'static str),
}

/// A value of the policy, as text.
pub enum Leaf {
    Flag(bool),
    Number(i64),
    Text(Seq<char>),
    List(Seq<Seq<char>>),
}

/// A value of the policy.
#[derive(Debug, Clone, PartialEq, Eq)]
pub enum PolicyValue {
    Flag(bool),
    Number(i64),
    Text(String),
    List(Vec<String>),
}

impl View for PolicyValue {
    type V = Leaf;

    open spec fn view(&self) -> Leaf {
        match *self {
            PolicyValue::Flag(b) => Leaf::Flag(b),
            PolicyValue::Number(n) => Leaf::Number(n),
            PolicyValue::Text(s) => Leaf::Text(s@),
            PolicyValue::List(v) => Leaf::List(texts(v@)),
        }
    }
}

/// A setting of the policy: the names that lead to it, and its value.
#[derive(Debug, Clone, PartialEq, Eq)]
pub struct Setting {
    pub path: Vec<&'static str>,
    pub value: PolicyValue,
}

/// A setting, as text.
pub struct Entry {
    pub path: Seq<&'static str>,
    pub value: Leaf,
}

impl View for Setting {
    type V = Entry;

    open spec fn view(&self) -> Entry {
        Entry { path: self.path@, value: self.value@ }
    }
}

pub open spec fn entries(v: Seq<Setting>) -> Seq<Entry> {
    Seq::new(v.len(), |i: int| v[i]@)
}

pub open spec fn leaf(p: Pref) -> Leaf {
    match p {
        Pref::Flag(b) => Leaf::Flag(b),
        Pref::Number(n) => Leaf::Number(n),
        Pref::Text(s) => Leaf::Text(s@),
    }
}

/// Settings that stand alone.
pub open spec fn single_settings() -> Seq<(&'static str, Pref)> {
    seq![
        ("AppAutoUpdate", Pref::Flag(false)),
        ("DisableAppUpdate", Pref::Flag(true)),
        ("BackgroundAppUpdate", Pref::Flag(false)),
        ("DisableSecurityBypass", Pref::Flag(false)),
        ("DisableTelemetry", Pref::Flag(true)),
        ("DisableFirefoxStudies", Pref::Flag(true)),
        ("DontCheckDefaultBrowser", Pref::Flag(true)),
        ("OverrideFirstRunPage", Pref::Text("https://ifconfig.me/")),
        ("DisablePocket", Pref::Flag(true)),
    ]
}

/// Settings of a group: all traffic and all names go through the proxy, and what
/// would go around it is turned off. Names over HTTPS are off too: they are looked
/// up at the far end of the tunnel (`UseProxyForDNS`), and a resolver that the
/// browser asks by itself would see every name in its place.
pub open spec fn grouped_settings() -> Seq<(&'static str, &'static str, Pref)> {
    seq![
        ("Proxy", "Mode", Pref::Text("manual")),
        ("Proxy", "SOCKSVersion", Pref::Number(5)),
        ("Proxy", "UseProxyForDNS", Pref::Flag(true)),
        ("Proxy", "Locked", Pref::Flag(true)),
        ("DNSOverHTTPS", "Enabled", Pref::Flag(false)),
        ("DNSOverHTTPS", "Locked", Pref::Flag(true)),
        ("EnableTrackingProtection", "Value", Pref::Flag(true)),
        ("EnableTrackingProtection", "Locked", Pref::Flag(true)),
        ("EnableTrackingProtection", "Cryptomining", Pref::Flag(true)),
        ("EnableTrackingProtection", "Fingerprinting", Pref::Flag(true)),
        ("EnableTrackingProtection", "EmailTracking", Pref::Flag(true)),
        ("WebRTCIPHandling", "Mode", Pref::Text("disable_non_proxied_udp")),
        ("WebRTCIPHandling", "Locked", Pref::Flag(true)),
        ("SearchEngines", "Default", Pref::Text("Google")),
        ("SearchEngines", "PreventInstalls", Pref::Flag(false)),
    ]
}

/// What sites may not ask for.
pub open spec fn blocked_permissions() -> Seq<&'static str> {
    seq!["Geolocation", "Camera", "Microphone", "Notifications"]
}

/// Preferences against tracking.
pub open spec fn privacy_preferences() -> Seq<(&'static str, Pref)> {
    seq![
        ("geo.enabled", Pref::Flag(false)),
        ("geo.provider.network.url", Pref::Text("")),
        ("browser.region.network.url", Pref::Text("")),
        ("browser.search.geoSpecificDefaults", Pref::Flag(false)),
        ("privacy.resistFingerprinting", Pref::Flag(true)),
        ("privacy.fingerprintingProtection", Pref::Flag(true)),
        ("privacy.firstparty.isolate", Pref::Flag(true)),
        ("privacy.trackingprotection.fingerprinting.enabled", Pref::Flag(true)),
        ("privacy.trackingprotection.cryptomining.enabled", Pref::Flag(true)),
        ("media.peerconnection.ice.default_address_only", Pref::Flag(true)),
        ("media.navigator.enabled", Pref::Flag(false)),
        ("dom.event.clipboardevents.enabled", Pref::Flag(false)),
        ("dom.battery.enabled", Pref::Flag(false)),
        ("dom.webaudio.enabled", Pref::Flag(false)),
        ("dom.gamepad.enabled", Pref::Flag(false)),
        ("network.http.referer.XOriginPolicy", Pref::Number(1)),
        ("network.http.referer.XOriginTrimmingPolicy", Pref::Number(2)),
        ("network.http.sendRefererHeader", Pref::Number(1)),
    ]
}

/// Preferences of language and of what the browser suggests.
pub open spec fn locale_preferences() -> Seq<(&'static str, Pref)> {
    seq![
        ("intl.accept_languages", Pref::Text("en-US, en")),
        ("intl.locale.requested", Pref::Text("en-US")),
        ("intl.locale.matchOS", Pref::Flag(false)),
        ("intl.regional_prefs.use_os_locales", Pref::Flag(false)),
        ("general.useragent.locale", Pref::Text("en-US")),
        ("spellchecker.dictionary", Pref::Text("en-US")),
        ("browser.search.suggest.enabled", Pref::Flag(false)),
        ("browser.urlbar.suggest.searches", Pref::Flag(false)),
        ("browser.urlbar.suggest.engines", Pref::Flag(false)),
        ("browser.newtabpage.activity-stream.feeds.section.topstories", Pref::Flag(false)),
        ("browser.newtabpage.activity-stream.showSponsored", Pref::Flag(false)),
        ("browser.newtabpage.activity-stream.showSponsoredTopSites", Pref::Flag(false)),
        ("browser.newtabpage.activity-stream.section.highlights.includePocket", Pref::Flag(false)),
        ("browser.discovery.enabled", Pref::Flag(false)),
        ("browser.translations.automaticPopup", Pref::Flag(false)),
        ("browser.translations.enable", Pref::Flag(false)),
        ("browser.region.update.enabled", Pref::Flag(false)),
        ("browser.search.geoip.url", Pref::Text("")),
        ("javascript.use_us_english_locale", Pref::Flag(true)),
    ]
}

pub open spec fn single_entry(s: (&'static str, Pref)) -> Entry {
    Entry { path: seq!["policies", s.0], value: leaf(s.1) }
}

pub open spec fn grouped_entry(s: (&'static str, &'static str, Pref)) -> Entry {
    Entry { path: seq!["policies", s.0, s.1], value: leaf(s.2) }
}

/// The value of a preference.
pub open spec fn value_entry(s: (&'static str, Pref)) -> Entry {
    Entry { path: seq!["policies", "Preferences", s.0, "Value"], value: leaf(s.1) }
}

/// That a preference cannot be changed.
pub open spec fn status_entry(s: (&'static str, Pref)) -> Entry {
    Entry {
        path: seq!["policies", "Preferences", s.0, "Status"],
        value: Leaf::Text("locked"@),
    }
}

/// A permission that no site gets.
pub open spec fn permission_entry(name: &'static str, field: &'static str) -> Entry {
    Entry { path: seq!["policies", "Permissions", name, field], value: Leaf::Flag(true) }
}

pub open spec fn preference_entries(list: Seq<(&'static str, Pref)>) -> Seq<Entry>
    decreases list.len(),
{
    if list.len() == 0 {
        Seq::empty()
    } else {
        preference_entries(list.drop_last()) + seq![
            value_entry(list.last()),
            status_entry(list.last()),
        ]
    }
}

pub open spec fn permission_entries(list: Seq<&'static str>) -> Seq<Entry>
    decreases list.len(),
{
    if list.len() == 0 {
        Seq::empty()
    } else {
        permission_entries(list.drop_last()) + seq![
            permission_entry(list.last(), "BlockNewRequests"),
            permission_entry(list.last(), "Locked"),
        ]
    }
}

/// The address of the proxy.
pub open spec fn proxy_entry(host: Seq<char>, port: u16) -> Entry {
    Entry {
        path: seq!["policies", "Proxy", "SOCKSProxy"],
        value: Leaf::Text(host + ":"@ + decimal(port as nat)),
    }
}

/// The policy that locks the browser to a SOCKS5 proxy.
pub open spec fn policy(host: Seq<char>, port: u16) -> Seq<Entry> {
    seq![
        Entry {
            path: seq!["_comment"],
            value: Leaf::Text(
                "Managed by БелкаТуннель. Locked SOCKS5 + RFP-style anti-fingerprinting."@,
            ),
        },
        proxy_entry(host, port),
        Entry {
            path: seq!["policies", "SearchEngines", "Remove"],
            value: Leaf::List(seq!["Яндекс"@, "Mail.ru"@]),
        },
    ] + grouped_settings().map_values(|s: (&'static str, &'static str, Pref)| grouped_entry(s))
        + single_settings().map_values(|s: (&'static str, Pref)| single_entry(s))
        + permission_entries(blocked_permissions()) + preference_entries(privacy_preferences())
        + preference_entries(locale_preferences())
}

fn value_of(p: Pref) -> (out: PolicyValue)
    ensures
        out@ == leaf(p),
{
    match p {
        Pref::Flag(b) => PolicyValue::Flag(b),
        Pref::Number(n) => PolicyValue::Number(n),
        Pref::Text(s) => PolicyValue::Text(s.to_owned()),
    }
}

fn push_setting(out: &mut Vec<Setting>, path: Vec<&'static str>, value: PolicyValue)
    ensures
        entries(final(out)@) == entries(old(out)@).push(Entry { path: path@, value: value@ }),
{
    let ghost before = entries(out@);
    out.push(Setting { path, value });
    assert(entries(out@) =~= before.push(Entry { path: path@, value: value@ }));
}

fn push_grouped(out: &mut Vec<Setting>, table: &Vec<(&'static str, &'static str, Pref)>)
    ensures
        entries(final(out)@) == entries(old(out)@) + table@.map_values(
            |s: (&'static str, &'static str, Pref)| grouped_entry(s),
        ),
{
    let ghost f = |s: (&'static str, &'static str, Pref)| grouped_entry(s);
    let ghost before = entries(out@);
    assert(before + table@.take(0).map_values(f) =~= before);
    for i in 0..table.len()
        invariant
            f == (|s: (&'static str, &'static str, Pref)| grouped_entry(s)),
            entries(out@) == before + table@.take(i as int).map_values(f),
    {
        let (group, name, pref) = table[i];
        let path: Vec<&'static str> = vec!["policies", group, name];
        assert(path@ =~= seq!["policies", group, name]);
        push_setting(out, path, value_of(pref));
        assert(table@.take(i + 1).map_values(f) =~= table@.take(i as int).map_values(f).push(
            grouped_entry(table@[i as int]),
        ));
        assert(entries(out@) =~= before + table@.take(i + 1).map_values(f));
    }
    assert(table@.take(table.len() as int) =~= table@);
}

fn push_single(out: &mut Vec<Setting>, table: &Vec<(&'static str, Pref)>)
    ensures
        entries(final(out)@) == entries(old(out)@) + table@.map_values(
            |s: (&'static str, Pref)| single_entry(s),
        ),
{
    let ghost f = |s: (&'static str, Pref)| single_entry(s);
    let ghost before = entries(out@);
    assert(before + table@.take(0).map_values(f) =~= before);
    for i in 0..table.len()
        invariant
            f == (|s: (&'static str, Pref)| single_entry(s)),
            entries(out@) == before + table@.take(i as int).map_values(f),
    {
        let (name, pref) = table[i];
        let path: Vec<&'static str> = vec!["policies", name];
        assert(path@ =~= seq!["policies", name]);
        push_setting(out, path, value_of(pref));
        assert(table@.take(i + 1).map_values(f) =~= table@.take(i as int).map_values(f).push(
            single_entry(table@[i as int]),
        ));
        assert(entries(out@) =~= before + table@.take(i + 1).map_values(f));
    }
    assert(table@.take(table.len() as int) =~= table@);
}

fn push_preferences(out: &mut Vec<Setting>, table: &Vec<(&'static str, Pref)>)
    ensures
        entries(final(out)@) == entries(old(out)@) + preference_entries(table@),
{
    let ghost before = entries(out@);
    assert(before + preference_entries(table@.take(0)) =~= before);
    for i in 0..table.len()
        invariant
            entries(out@) == before + preference_entries(table@.take(i as int)),
    {
        let (name, pref) = table[i];
        let path: Vec<&'static str> = vec!["policies", "Preferences", name, "Value"];
        assert(path@ =~= seq!["policies", "Preferences", name, "Value"]);
        push_setting(out, path, value_of(pref));
        let path: Vec<&'static str> = vec!["policies", "Preferences", name, "Status"];
        assert(path@ =~= seq!["policies", "Preferences", name, "Status"]);
        push_setting(out, path, PolicyValue::Text("locked".to_owned()));
        assert(table@.take(i + 1).drop_last() =~= table@.take(i as int));
        assert(entries(out@) =~= before + preference_entries(table@.take(i + 1)));
    }
    assert(table@.take(table.len() as int) =~= table@);
}

fn push_permissions(out: &mut Vec<Setting>, table: &Vec<&'static str>)
    ensures
        entries(final(out)@) == entries(old(out)@) + permission_entries(table@),
{
    let ghost before = entries(out@);
    assert(before + permission_entries(table@.take(0)) =~= before);
    for i in 0..table.len()
        invariant
            entries(out@) == before + permission_entries(table@.take(i as int)),
    {
        let name = table[i];
        let path: Vec<&'static str> = vec!["policies", "Permissions", name, "BlockNewRequests"];
        assert(path@ =~= seq!["policies", "Permissions", name, "BlockNewRequests"]);
        push_setting(out, path, PolicyValue::Flag(true));
        let path: Vec<&'static str> = vec!["policies", "Permissions", name, "Locked"];
        assert(path@ =~= seq!["policies", "Permissions", name, "Locked"]);
        push_setting(out, path, PolicyValue::Flag(true));
        assert(table@.take(i + 1).drop_last() =~= table@.take(i as int));
        assert(entries(out@) =~= before + permission_entries(table@.take(i + 1)));
    }
    assert(table@.take(table.len() as int) =~= table@);
}

fn single_table() -> (out: Vec<(&'static str, Pref)>)
    ensures
        out@ == single_settings(),
{
    let out: Vec<(&'static str, Pref)> = vec![
        ("AppAutoUpdate", Pref::Flag(false)),
        ("DisableAppUpdate", Pref::Flag(true)),
        ("BackgroundAppUpdate", Pref::Flag(false)),
        ("DisableSecurityBypass", Pref::Flag(false)),
        ("DisableTelemetry", Pref::Flag(true)),
        ("DisableFirefoxStudies", Pref::Flag(true)),
        ("DontCheckDefaultBrowser", Pref::Flag(true)),
        ("OverrideFirstRunPage", Pref::Text("https://ifconfig.me/")),
        ("DisablePocket", Pref::Flag(true)),
    ];
    assert(out@ =~= single_settings());
    out
}

fn grouped_table() -> (out: Vec<(&'static str, &'static str, Pref)>)
    ensures
        out@ == grouped_settings(),
{
    let out: Vec<(&'static str, &'static str, Pref)> = vec![
        ("Proxy", "Mode", Pref::Text("manual")),
        ("Proxy", "SOCKSVersion", Pref::Number(5)),
        ("Proxy", "UseProxyForDNS", Pref::Flag(true)),
        ("Proxy", "Locked", Pref::Flag(true)),
        ("DNSOverHTTPS", "Enabled", Pref::Flag(false)),
        ("DNSOverHTTPS", "Locked", Pref::Flag(true)),
        ("EnableTrackingProtection", "Value", Pref::Flag(true)),
        ("EnableTrackingProtection", "Locked", Pref::Flag(true)),
        ("EnableTrackingProtection", "Cryptomining", Pref::Flag(true)),
        ("EnableTrackingProtection", "Fingerprinting", Pref::Flag(true)),
        ("EnableTrackingProtection", "EmailTracking", Pref::Flag(true)),
        ("WebRTCIPHandling", "Mode", Pref::Text("disable_non_proxied_udp")),
        ("WebRTCIPHandling", "Locked", Pref::Flag(true)),
        ("SearchEngines", "Default", Pref::Text("Google")),
        ("SearchEngines", "PreventInstalls", Pref::Flag(false)),
    ];
    assert(out@ =~= grouped_settings());
    out
}

fn permission_table() -> (out: Vec<&'static str>)
    ensures
        out@ == blocked_permissions(),
{
    let out: Vec<&'static str> = vec!["Geolocation", "Camera", "Microphone", "Notifications"];
    assert(out@ =~= blocked_permissions());
    out
}

fn privacy_table() -> (out: Vec<(&'static str, Pref)>)
    ensures
        out@ == privacy_preferences(),
{
    let out: Vec<(&'static str, Pref)> = vec![
        ("geo.enabled", Pref::Flag(false)),
        ("geo.provider.network.url", Pref::Text("")),
        ("browser.region.network.url", Pref::Text("")),
        ("browser.search.geoSpecificDefaults", Pref::Flag(false)),
        ("privacy.resistFingerprinting", Pref::Flag(true)),
        ("privacy.fingerprintingProtection", Pref::Flag(true)),
        ("privacy.firstparty.isolate", Pref::Flag(true)),
        ("privacy.trackingprotection.fingerprinting.enabled", Pref::Flag(true)),
        ("privacy.trackingprotection.cryptomining.enabled", Pref::Flag(true)),
        ("media.peerconnection.ice.default_address_only", Pref::Flag(true)),
        ("media.navigator.enabled", Pref::Flag(false)),
        ("dom.event.clipboardevents.enabled", Pref::Flag(false)),
        ("dom.battery.enabled", Pref::Flag(false)),
        ("dom.webaudio.enabled", Pref::Flag(false)),
        ("dom.gamepad.enabled", Pref::Flag(false)),
        ("network.http.referer.XOriginPolicy", Pref::Number(1)),
        ("network.http.referer.XOriginTrimmingPolicy", Pref::Number(2)),
        ("network.http.sendRefererHeader", Pref::Number(1)),
    ];
    assert(out@ =~= privacy_preferences());
    out
}

fn locale_table() -> (out: Vec<(&'static str, Pref)>)
    ensures
        out@ == locale_preferences(),
{
    let out: Vec<(&'static str, Pref)> = vec![
        ("intl.accept_languages", Pref::Text("en-US, en")),
        ("intl.locale.requested", Pref::Text("en-US")),
        ("intl.locale.matchOS", Pref::Flag(false)),
        ("intl.regional_prefs.use_os_locales", Pref::Flag(false)),
        ("general.useragent.locale", Pref::Text("en-US")),
        ("spellchecker.dictionary", Pref::Text("en-US")),
        ("browser.search.suggest.enabled", Pref::Flag(false)),
        ("browser.urlbar.suggest.searches", Pref::Flag(false)),
        ("browser.urlbar.suggest.engines", Pref::Flag(false)),
        ("browser.newtabpage.activity-stream.feeds.section.topstories", Pref::Flag(false)),
        ("browser.newtabpage.activity-stream.showSponsored", Pref::Flag(false)),
        ("browser.newtabpage.activity-stream.showSponsoredTopSites", Pref::Flag(false)),
        ("browser.newtabpage.activity-stream.section.highlights.includePocket", Pref::Flag(false)),
        ("browser.discovery.enabled", Pref::Flag(false)),
        ("browser.translations.automaticPopup", Pref::Flag(false)),
        ("browser.translations.enable", Pref::Flag(false)),
        ("browser.region.update.enabled", Pref::Flag(false)),
        ("browser.search.geoip.url", Pref::Text("")),
        ("javascript.use_us_english_locale", Pref::Flag(true)),
    ];
    assert(out@ =~= locale_preferences());
    out
}

/// The settings of the policy that locks the browser to a SOCKS5 proxy.
pub fn install_firefox_policies(socks_host: &str, socks_port: u16) -> (out: Vec<Setting>)
    ensures
        entries(out@) == policy(socks_host@, socks_port),
{
    let mut out: Vec<Setting> = Vec::new();
    let path: Vec<&'static str> = vec!["_comment"];
    assert(path@ =~= seq!["_comment"]);
    push_setting(
        &mut out,
        path,
        PolicyValue::Text(
            "Managed by БелкаТуннель. Locked SOCKS5 + RFP-style anti-fingerprinting.".to_owned(),
        ),
    );
    let path: Vec<&'static str> = vec!["policies", "Proxy", "SOCKSProxy"];
    assert(path@ =~= seq!["policies", "Proxy", "SOCKSProxy"]);
    let address = concat3(socks_host, ":", decimal_text(socks_port as u64).as_str());
    push_setting(&mut out, path, PolicyValue::Text(address));
    let path: Vec<&'static str> = vec!["policies", "SearchEngines", "Remove"];
    assert(path@ =~= seq!["policies", "SearchEngines", "Remove"]);
    let mut removed: Vec<String> = Vec::new();
    removed.push("Яндекс".to_owned());
    removed.push("Mail.ru".to_owned());
    assert(texts(removed@) =~= seq!["Яндекс"@, "Mail.ru"@]);
    push_setting(&mut out, path, PolicyValue::List(removed));
    assert(entries(out@) =~= seq![
        Entry {
            path: seq!["_comment"],
            value: Leaf::Text(
                "Managed by БелкаТуннель. Locked SOCKS5 + RFP-style anti-fingerprinting."@,
            ),
        },
        proxy_entry(socks_host@, socks_port),
        Entry {
            path: seq!["policies", "SearchEngines", "Remove"],
            value: Leaf::List(seq!["Яндекс"@, "Mail.ru"@]),
        },
    ]);
    push_grouped(&mut out, &grouped_table());
    push_single(&mut out, &single_table());
    push_permissions(&mut out, &permission_table());
    push_preferences(&mut out, &privacy_table());
    push_preferences(&mut out, &locale_table());
    out
}

// ---------- Installing it ----------

/// The place where a disk image was mounted, in a line of what was printed: the
/// last of the columns, if it is a volume.
pub open spec fn mounted_in(line: Seq<char>) -> Option<Seq<char>> {
    let place = trimmed(after_last(line, '\t'));
    if stands_at(place, "/Volumes/"@, 0) {
        Some(place)
    } else {
        None
    }
}

/// The first place where a disk image was mounted.
pub open spec fn first_mounted(list: Seq<Seq<char>>) -> Option<Seq<char>>
    decreases list.len(),
{
    if list.len() == 0 {
        None
    } else if mounted_in(list[0]) is Some {
        mounted_in(list[0])
    } else {
        first_mounted(list.drop_first())
    }
}

/// Where a disk image was mounted, by what was printed.
pub fn mount_point(stdout: &str) -> (res: Option<String>)
    ensures
        opt_text(res) == first_mounted(lines(stdout@)),
{
    let all = split_lines(stdout);
    let ghost list = lines(stdout@);
    let mut i: usize = 0;
    assert(list.skip(0) =~= list);
    while i < all.len()
        invariant
            texts(all@) == list,
            list == lines(stdout@),
            i <= all.len(),
            first_mounted(list) == first_mounted(list.skip(i as int)),
        decreases all.len() - i,
    {
        assert(list.skip(i as int)[0] == all@[i as int]@);
        assert(list.skip(i as int).drop_first() =~= list.skip(i + 1));
        let place = trim(take_after_last(all[i].as_str(), '\t').as_str());
        if starts_with(place.as_str(), "/Volumes/") {
            return Some(place);
        }
        i = i + 1;
    }
    None
}

/// Where an installation stands, as text.
pub enum Stage {
    Download,
    Mount,
    LookForApp(Seq<char>),
    LookForOld(Seq<char>),
    RemoveOld(Seq<char>),
    Copy(Seq<char>),
    CleanUp(Option<Seq<char>>, Result<(), Seq<char>>),
    Done(Result<(), Seq<char>>),
}

/// Where an installation stands: what is done next, or how it ended. The text is
/// the place where the disk image is mounted.
#[derive(Debug, PartialEq, Eq)]
pub enum Phase {
    /// The disk image is to be downloaded.
    Download,
    /// It is to be mounted.
    Mount,
    /// The browser is to be looked for on it.
    LookForApp(String),
    /// An installed browser is to be looked for.
    LookForOld(String),
    /// It is to be removed.
    RemoveOld(String),
    /// The new one is to be copied.
    Copy(String),
    /// The image is to be unmounted, if it is mounted, and removed.
    CleanUp(Option<String>, Result<(), String>),
    Done(Result<(), String>),
}

pub open spec fn outcome(res: Result<(), String>) -> Result<(), Seq<char>> {
    match res {
        Ok(_) => Ok(()),
        Err(text) => Err(text@),
    }
}

impl View for Phase {
    type V = Stage;

    open spec fn view(&self) -> Stage {
        match *self {
            Phase::Download => Stage::Download,
            Phase::Mount => Stage::Mount,
            Phase::LookForApp(m) => Stage::LookForApp(m@),
            Phase::LookForOld(m) => Stage::LookForOld(m@),
            Phase::RemoveOld(m) => Stage::RemoveOld(m@),
            Phase::Copy(m) => Stage::Copy(m@),
            Phase::CleanUp(m, res) => Stage::CleanUp(opt_text(m), outcome(res)),
            Phase::Done(res) => Stage::Done(outcome(res)),
        }
    }
}

/// What came of a step.
pub enum Report {
    /// A program ran: whether it succeeded, and what it printed.
    Ran { success: bool, stdout: String, stderr: String },
    /// Something that was looked for is there, or not.
    Found(bool),
    /// The step could not be done.
    Failed(String),
}

/// What came of a step, as text.
pub enum Word {
    Ran(bool, Seq<char>, Seq<char>),
    Found(bool),
    Failed(Seq<char>),
}

impl View for Report {
    type V = Word;

    open spec fn view(&self) -> Word {
        match *self {
            Report::Ran { success, stdout, stderr } => Word::Ran(success, stdout@, stderr@),
            Report::Found(there) => Word::Found(there),
            Report::Failed(text) => Word::Failed(text@),
        }
    }
}

/// The message of a step that could not be done.
pub open spec fn failed_text(word: Word) -> Seq<char> {
    match word {
        Word::Failed(text) => text,
        _ => "unexpected reply"@,
    }
}

/// Where an installation stands after a step.
pub open spec fn next_stage(stage: Stage, word: Word) -> Stage {
    match stage {
        Stage::Download => match word {
            Word::Ran(success, _, stderr) => if success {
                Stage::Mount
            } else {
                Stage::Done(Err("download failed: "@ + trimmed(stderr)))
            },
            _ => Stage::Done(Err("spawn curl for Firefox DMG: "@ + failed_text(word))),
        },
        Stage::Mount => match word {
            Word::Ran(success, stdout, stderr) => if !success {
                Stage::CleanUp(None, Err("hdiutil attach failed: "@ + trimmed(stderr)))
            } else {
                match first_mounted(lines(stdout)) {
                    Some(place) => Stage::LookForApp(place),
                    None => Stage::Done(Err("could not parse mount point from hdiutil"@)),
                }
            },
            _ => Stage::Done(Err("spawn hdiutil attach: "@ + failed_text(word))),
        },
        Stage::LookForApp(m) => if word == Word::Found(true) {
            Stage::LookForOld(m)
        } else {
            Stage::CleanUp(
                Some(m),
                Err("Firefox.app missing inside DMG at "@ + below(m, "Firefox.app"@)),
            )
        },
        Stage::LookForOld(m) => if word == Word::Found(true) {
            Stage::RemoveOld(m)
        } else {
            Stage::Copy(m)
        },
        Stage::RemoveOld(m) => match word {
            Word::Failed(text) => Stage::CleanUp(
                Some(m),
                Err(
                    "couldn't remove existing /Applications/Firefox.app: "@ + text
                        + " (close Firefox first, or copy manually)"@,
                ),
            ),
            _ => Stage::Copy(m),
        },
        Stage::Copy(m) => match word {
            Word::Ran(success, _, _) => if success {
                Stage::CleanUp(Some(m), Ok(()))
            } else {
                Stage::CleanUp(
                    Some(m),
                    Err(
                        "couldn't copy Firefox.app to /Applications. Permission denied? Try ~/Applications instead."@,
                    ),
                )
            },
            _ => Stage::CleanUp(
                Some(m),
                Err("spawn ditto for Firefox copy: "@ + failed_text(word)),
            ),
        },
        Stage::CleanUp(_, res) => Stage::Done(res),
        Stage::Done(res) => Stage::Done(res),
    }
}

fn reason(report: &Report) -> (out: String)
    ensures
        out@ == failed_text(report@),
{
    match report {
        Report::Failed(text) => text.clone(),
        _ => "unexpected reply".to_owned(),
    }
}

fn mounted_phase(report: &Report) -> (out: Phase)
    ensures
        out@ == next_stage(Stage::Mount, report@),
{
    match report {
        Report::Ran { success, stdout, stderr } => {
            if !*success {
                Phase::CleanUp(
                    None,
                    Err(concat2("hdiutil attach failed: ", trim(stderr.as_str()).as_str())),
                )
            } else {
                match mount_point(stdout.as_str()) {
                    Some(place) => Phase::LookForApp(place),
                    None => {
                        Phase::Done(Err("could not parse mount point from hdiutil".to_owned()))
                    },
                }
            }
        },
        _ => Phase::Done(Err(concat2("spawn hdiutil attach: ", reason(report).as_str()))),
    }
}

fn copied_phase(place: &String, report: &Report) -> (out: Phase)
    ensures
        out@ == next_stage(Stage::Copy(place@), report@),
{
    let res: Result<(), String> = match report {
        Report::Ran { success, .. } => {
            if *success {
                Ok(())
            } else {
                Err(
                    "couldn't copy Firefox.app to /Applications. Permission denied? Try ~/Applications instead.".to_owned(),
                )
            }
        },
        _ => Err(concat2("spawn ditto for Firefox copy: ", reason(report).as_str())),
    };
    Phase::CleanUp(Some(place.clone()), res)
}

impl Phase {
    /// What is done next, after what came of a step.
    pub fn next(&self, report: &Report) -> (out: Phase)
        ensures
            out@ == next_stage(self@, report@),
    {
        match self {
            Phase::Download => match report {
                Report::Ran { success, stderr, .. } => {
                    if *success {
                        Phase::Mount
                    } else {
                        Phase::Done(
                            Err(concat2("download failed: ", trim(stderr.as_str()).as_str())),
                        )
                    }
                },
                _ => Phase::Done(
                    Err(concat2("spawn curl for Firefox DMG: ", reason(report).as_str())),
                ),
            },
            Phase::Mount => mounted_phase(report),
            Phase::LookForApp(place) => match report {
                Report::Found(true) => Phase::LookForOld(place.clone()),
                _ => Phase::CleanUp(
                    Some(place.clone()),
                    Err(
                        concat2(
                            "Firefox.app missing inside DMG at ",
                            join_path(place.as_str(), "Firefox.app").as_str(),
                        ),
                    ),
                ),
            },
            Phase::LookForOld(place) => match report {
                Report::Found(true) => Phase::RemoveOld(place.clone()),
                _ => Phase::Copy(place.clone()),
            },
            Phase::RemoveOld(place) => match report {
                Report::Failed(text) => Phase::CleanUp(
                    Some(place.clone()),
                    Err(
                        concat3(
                            "couldn't remove existing /Applications/Firefox.app: ",
                            text.as_str(),
                            " (close Firefox first, or copy manually)",
                        ),
                    ),
                ),
                _ => Phase::Copy(place.clone()),
            },
            Phase::Copy(place) => copied_phase(place, report),
            Phase::CleanUp(_, res) => match res {
                Ok(_) => Phase::Done(Ok(())),
                Err(text) => Phase::Done(Err(text.clone())),
            },
            Phase::Done(res) => match res {
                Ok(_) => Phase::Done(Ok(())),
                Err(text) => Phase::Done(Err(text.clone())),
            },
        }
    }
}

// ---------- Taking it away ----------

/// How the browser is taken away.
#[derive(Debug, PartialEq, Eq)]
pub enum Removal {
    /// It is not there.
    NotInstalled,
    /// By the Homebrew at this path.
    Brew(String),
    /// By this script.
    Trash(String),
}

/// Chooses how the browser is taken away: by Homebrew where that manages it, and
/// by way of the Trash otherwise.
pub fn choose_removal(info: &FirefoxInfo, managed: bool) -> (out: Removal)
    ensures
        match (opt_text(info.path), opt_text(info.brew)) {
            (None, _) => out == Removal::NotInstalled,
            (Some(_), Some(brew)) if managed => out matches Removal::Brew(b) && b@ == brew,
            (Some(path), _) => out matches Removal::Trash(script) && script@
                == "tell application \"Finder\" to delete POSIX file \""@ + script_escaped(path)
                + "\""@,
        },
{
    match &info.path {
        None => Removal::NotInstalled,
        Some(path) => {
            if managed {
                if let Some(brew) = &info.brew {
                    return Removal::Brew(brew.clone());
                }
            }
            Removal::Trash(trash_script(path.as_str()))
        },
    }
}

/// What comes of waiting for Homebrew.
#[derive(Debug, Clone, Copy, PartialEq, Eq)]
pub enum Wait {
    Ready,
    TimedOut,
    More,
}

/// Minutes that Homebrew is waited for.
pub const HOMEBREW_MINUTES: u64 = 30;

/// Looks whether Homebrew is there, so many seconds after the start.
pub fn poll_homebrew(found: bool, elapsed_secs: u64) -> (out: Wait)
    ensures
        out == if found {
            Wait::Ready
        } else if elapsed_secs >= HOMEBREW_MINUTES * 60 {
            Wait::TimedOut
        } else {
            Wait::More
        },
{
    if found {
        Wait::Ready
    } else if elapsed_secs >= HOMEBREW_MINUTES * 60 {
        Wait::TimedOut
    } else {
        Wait::More
    }
}

// ---------- Laws ----------

proof fn lemma_preference(list: Seq<(&'static str, Pref)>, i: int)
    requires
        0 <= i < list.len(),
    ensures
        preference_entries(list).contains(value_entry(list[i])),
        preference_entries(list).contains(status_entry(list[i])),
    decreases list.len(),
{
    let front = list.drop_last();
    let inner = preference_entries(front);
    let all = preference_entries(list);
    if i == list.len() - 1 {
        assert(all[inner.len() as int] == value_entry(list[i]));
        assert(all[inner.len() as int + 1] == status_entry(list[i]));
    } else {
        lemma_preference(front, i);
        assert(front[i] == list[i]);
        let a = choose|a: int| 0 <= a < inner.len() && inner[a] == value_entry(list[i]);
        let b = choose|b: int| 0 <= b < inner.len() && inner[b] == status_entry(list[i]);
        assert(all[a] == value_entry(list[i]));
        assert(all[b] == status_entry(list[i]));
    }
}

/// All that the policy holds in front of the preferences.
pub open spec fn policy_head(host: Seq<char>, port: u16) -> Seq<Entry> {
    seq![
        Entry {
            path: seq!["_comment"],
            value: Leaf::Text(
                "Managed by БелкаТуннель. Locked SOCKS5 + RFP-style anti-fingerprinting."@,
            ),
        },
        proxy_entry(host, port),
        Entry {
            path: seq!["policies", "SearchEngines", "Remove"],
            value: Leaf::List(seq!["Яндекс"@, "Mail.ru"@]),
        },
    ] + grouped_settings().map_values(|s: (&'static str, &'static str, Pref)| grouped_entry(s))
        + single_settings().map_values(|s: (&'static str, Pref)| single_entry(s))
        + permission_entries(blocked_permissions())
}

/// The policy holds every preference with its value, and each of them is locked.
pub proof fn preferences_are_locked(host: Seq<char>, port: u16, i: int)
    ensures
        0 <= i < privacy_preferences().len() ==> policy(host, port).contains(
            value_entry(privacy_preferences()[i]),
        ) && policy(host, port).contains(status_entry(privacy_preferences()[i])),
        0 <= i < locale_preferences().len() ==> policy(host, port).contains(
            value_entry(locale_preferences()[i]),
        ) && policy(host, port).contains(status_entry(locale_preferences()[i])),
{
    let head = policy_head(host, port);
    let first = preference_entries(privacy_preferences());
    let second = preference_entries(locale_preferences());
    let all = policy(host, port);
    assert(all == head + first + second);
    if 0 <= i < privacy_preferences().len() {
        lemma_preference(privacy_preferences(), i);
        let e = value_entry(privacy_preferences()[i]);
        let k = choose|k: int| 0 <= k < first.len() && first[k] == e;
        assert(all[head.len() as int + k] == e);
        let e = status_entry(privacy_preferences()[i]);
        let k = choose|k: int| 0 <= k < first.len() && first[k] == e;
        assert(all[head.len() as int + k] == e);
    }
    if 0 <= i < locale_preferences().len() {
        lemma_preference(locale_preferences(), i);
        let e = value_entry(locale_preferences()[i]);
        let k = choose|k: int| 0 <= k < second.len() && second[k] == e;
        assert(all[head.len() as int + first.len() as int + k] == e);
        let e = status_entry(locale_preferences()[i]);
        let k = choose|k: int| 0 <= k < second.len() && second[k] == e;
        assert(all[head.len() as int + first.len() as int + k] == e);
    }
}

/// The policy holds every setting, alone or in a group, with its value.
pub proof fn settings_are_held(host: Seq<char>, port: u16, i: int)
    ensures
        0 <= i < grouped_settings().len() ==> policy(host, port).contains(
            grouped_entry(grouped_settings()[i]),
        ),
        0 <= i < single_settings().len() ==> policy(host, port).contains(
            single_entry(single_settings()[i]),
        ),
{
    let all = policy(host, port);
    let groups = grouped_settings();
    if 0 <= i < groups.len() {
        assert(all[3 + i] == grouped_entry(groups[i]));
    }
    if 0 <= i < single_settings().len() {
        assert(all[3 + groups.len() as int + i] == single_entry(single_settings()[i]));
    }
}

/// The policy holds the proxy at the given address, locked, and all names go
/// through it: names over HTTPS are turned off, and so is what would go around the
/// proxy; neither can be changed.
pub proof fn proxy_is_locked(host: Seq<char>, port: u16)
    ensures
        policy(host, port).contains(proxy_entry(host, port)),
        policy(host, port).contains(grouped_entry(("Proxy", "Locked", Pref::Flag(true)))),
        policy(host, port).contains(grouped_entry(("Proxy", "Mode", Pref::Text("manual")))),
        policy(host, port).contains(grouped_entry(("Proxy", "SOCKSVersion", Pref::Number(5)))),
        policy(host, port).contains(grouped_entry(("Proxy", "UseProxyForDNS", Pref::Flag(true)))),
        policy(host, port).contains(grouped_entry(("DNSOverHTTPS", "Enabled", Pref::Flag(false)))),
        policy(host, port).contains(grouped_entry(("DNSOverHTTPS", "Locked", Pref::Flag(true)))),
        policy(host, port).contains(
            grouped_entry(("WebRTCIPHandling", "Mode", Pref::Text("disable_non_proxied_udp"))),
        ),
        policy(host, port).contains(grouped_entry(("WebRTCIPHandling", "Locked", Pref::Flag(true)))),
{
    assert(policy(host, port)[1] == proxy_entry(host, port));
    settings_are_held(host, port, 0);
    settings_are_held(host, port, 1);
    settings_are_held(host, port, 2);
    settings_are_held(host, port, 3);
    settings_are_held(host, port, 4);
    settings_are_held(host, port, 5);
    settings_are_held(host, port, 11);
    settings_are_held(host, port, 12);
}

proof fn lemma_permission(list: Seq<&'static str>, i: int)
    requires
        0 <= i < list.len(),
    ensures
        permission_entries(list).contains(permission_entry(list[i], "BlockNewRequests")),
        permission_entries(list).contains(permission_entry(list[i], "Locked")),
    decreases list.len(),
{
    let front = list.drop_last();
    let inner = permission_entries(front);
    let all = permission_entries(list);
    let block = permission_entry(list[i], "BlockNewRequests");
    let lock = permission_entry(list[i], "Locked");
    if i == list.len() - 1 {
        assert(all[inner.len() as int] == block);
        assert(all[inner.len() as int + 1] == lock);
    } else {
        lemma_permission(front, i);
        assert(front[i] == list[i]);
        let a = choose|a: int| 0 <= a < inner.len() && inner[a] == block;
        let b = choose|b: int| 0 <= b < inner.len() && inner[b] == lock;
        assert(all[a] == block);
        assert(all[b] == lock);
    }
}

/// No site may ask for any of the blocked permissions, and none of these can be
/// changed.
pub proof fn permissions_are_blocked(host: Seq<char>, port: u16, i: int)
    requires
        0 <= i < blocked_permissions().len(),
    ensures
        policy(host, port).contains(permission_entry(blocked_permissions()[i], "BlockNewRequests")),
        policy(host, port).contains(permission_entry(blocked_permissions()[i], "Locked")),
{
    let before = 3 + grouped_settings().len() as int + single_settings().len() as int;
    let part = permission_entries(blocked_permissions());
    let all = policy(host, port);
    lemma_permission(blocked_permissions(), i);
    let block = permission_entry(blocked_permissions()[i], "BlockNewRequests");
    let lock = permission_entry(blocked_permissions()[i], "Locked");
    let a = choose|a: int| 0 <= a < part.len() && part[a] == block;
    let b = choose|b: int| 0 <= b < part.len() && part[b] == lock;
    assert(all[before + a] == block);
    assert(all[before + b] == lock);
}

/// Once a disk image is mounted at a known place, an installation ends only after
/// it has been unmounted: every step leads on with the same place, or to its
/// unmounting.
pub proof fn images_are_unmounted(stage: Stage, word: Word, place: Seq<char>)
    requires
        stage == Stage::LookForApp(place) || stage == Stage::LookForOld(place) || stage
            == Stage::RemoveOld(place) || stage == Stage::Copy(place),
    ensures
        ({
            let next = next_stage(stage, word);
            ||| next == Stage::LookForOld(place)
            ||| next == Stage::RemoveOld(place)
            ||| next == Stage::Copy(place)
            ||| next matches Stage::CleanUp(m, _) && m == Some(place)
        }),
{
}

/// A step is taken only after the one before it succeeded, and an installation succeeds
/// only by a copy that did.
pub proof fn steps_follow_success(stage: Stage, word: Word)
    requires
        stage !is Done,
    ensures
        next_stage(stage, word) is Mount <==> stage is Download && word is Ran && word->Ran_0,
        next_stage(stage, word) is LookForApp <==> stage is Mount && word is Ran && word->Ran_0
            && first_mounted(lines(word->Ran_1)) is Some,
        next_stage(stage, word) matches Stage::LookForApp(place) ==> first_mounted(
            lines(word->Ran_1),
        ) == Some(place),
        next_stage(stage, word) is LookForOld <==> stage is LookForApp && word == Word::Found(true),
        next_stage(stage, word) matches Stage::LookForOld(m) ==> stage == Stage::LookForApp(m),
        next_stage(stage, word) is RemoveOld <==> stage is LookForOld && word == Word::Found(true),
        next_stage(stage, word) matches Stage::RemoveOld(m) ==> stage == Stage::LookForOld(m),
        next_stage(stage, word) is Copy <==> (stage is LookForOld && word != Word::Found(true)) || (
        stage is RemoveOld && word !is Failed),
        next_stage(stage, word) matches Stage::Copy(m) ==> stage == Stage::LookForOld(m) || stage
            == Stage::RemoveOld(m),
        next_stage(stage, word) is CleanUp && next_stage(stage, word)->CleanUp_1 is Ok
            <==> stage is Copy && word is Ran && word->Ran_0,
        next_stage(stage, word) is Done && next_stage(stage, word)->Done_0 is Ok
            <==> stage is CleanUp && stage->CleanUp_1 is Ok,
        stage matches Stage::CleanUp(_, res) ==> next_stage(stage, word) == Stage::Done(res),
{
}

/// The browser of all users is taken before that of the user, and the Homebrew of newer
/// machines before the other.
pub proof fn the_first_browser_is_taken(probe: Probe)
    ensures
        probe.system_bundle ==> bundle_of(probe) == Some("/Applications/Firefox.app"@),
        !probe.system_bundle && probe.home is Some && probe.home_bundle ==> bundle_of(probe)
            == Some(probe.home->0@ + "/Applications/Firefox.app"@),
        !probe.system_bundle && (probe.home is None || !probe.home_bundle) ==> bundle_of(
            probe,
        ) is None,
        probe.arm_brew ==> brew_of(probe) == Some("/opt/homebrew/bin/brew"@),
        !probe.arm_brew && probe.intel_brew ==> brew_of(probe) == Some("/usr/local/bin/brew"@),
        !probe.arm_brew && !probe.intel_brew ==> brew_of(probe) is None,
{
}

/// The mount point is the first volume that a line ends in, behind its last tab.
pub proof fn the_first_volume_is_taken(list: Seq<Seq<char>>, at: int)
    ensures
        0 <= at < list.len() && (forall|i: int|
            0 <= i < at ==> !stands_at(
                trimmed(after_last(#[trigger] list[i], '\t')),
                "/Volumes/"@,
                0,
            )) && stands_at(trimmed(after_last(list[at], '\t')), "/Volumes/"@, 0)
            ==> first_mounted(list) == Some(trimmed(after_last(list[at], '\t'))),
        (forall|i: int|
            0 <= i < list.len() ==> !stands_at(
                trimmed(after_last(#[trigger] list[i], '\t')),
                "/Volumes/"@,
                0,
            )) ==> first_mounted(list) is None,
    decreases list.len(),
{
    if list.len() > 0 {
        let rest = list.drop_first();
        the_first_volume_is_taken(rest, at - 1);
        assert(forall|i: int| 0 <= i < rest.len() ==> #[trigger] rest[i] == list[i + 1]);
        assert(0 < at < list.len() ==> rest[at - 1] == list[at]);
        assert(list[0] == list[0]);
    }
}


/// The browser is not updated or sent anything by its maker, asks for nothing at its
/// start, protects against tracking, and searches with one engine.
pub proof fn settings_are_strict(host: Seq<char>, port: u16)
    ensures
        policy(host, port).contains(single_entry(("AppAutoUpdate", Pref::Flag(false)))),
        policy(host, port).contains(single_entry(("DisableAppUpdate", Pref::Flag(true)))),
        policy(host, port).contains(single_entry(("BackgroundAppUpdate", Pref::Flag(false)))),
        policy(host, port).contains(single_entry(("DisableSecurityBypass", Pref::Flag(false)))),
        policy(host, port).contains(single_entry(("DisableTelemetry", Pref::Flag(true)))),
        policy(host, port).contains(single_entry(("DisableFirefoxStudies", Pref::Flag(true)))),
        policy(host, port).contains(single_entry(("DontCheckDefaultBrowser", Pref::Flag(true)))),
        policy(host, port).contains(single_entry(("OverrideFirstRunPage", Pref::Text("https://ifconfig.me/")))),
        policy(host, port).contains(single_entry(("DisablePocket", Pref::Flag(true)))),
        policy(host, port).contains(grouped_entry(("EnableTrackingProtection", "Value", Pref::Flag(true)))),
        policy(host, port).contains(grouped_entry(("EnableTrackingProtection", "Locked", Pref::Flag(true)))),
        policy(host, port).contains(grouped_entry(("EnableTrackingProtection", "Cryptomining", Pref::Flag(true)))),
        policy(host, port).contains(grouped_entry(("EnableTrackingProtection", "Fingerprinting", Pref::Flag(true)))),
        policy(host, port).contains(grouped_entry(("EnableTrackingProtection", "EmailTracking", Pref::Flag(true)))),
        policy(host, port).contains(grouped_entry(("SearchEngines", "Default", Pref::Text("Google")))),
        policy(host, port).contains(grouped_entry(("SearchEngines", "PreventInstalls", Pref::Flag(false)))),
        policy(host, port).contains(permission_entry("Geolocation", "BlockNewRequests")),
        policy(host, port).contains(permission_entry("Geolocation", "Locked")),
        policy(host, port).contains(permission_entry("Camera", "BlockNewRequests")),
        policy(host, port).contains(permission_entry("Camera", "Locked")),
        policy(host, port).contains(permission_entry("Microphone", "BlockNewRequests")),
        policy(host, port).contains(permission_entry("Microphone", "Locked")),
        policy(host, port).contains(permission_entry("Notifications", "BlockNewRequests")),
        policy(host, port).contains(permission_entry("Notifications", "Locked")),
{
    settings_are_held(host, port, 0);
    settings_are_held(host, port, 1);
    settings_are_held(host, port, 2);
    settings_are_held(host, port, 3);
    settings_are_held(host, port, 4);
    settings_are_held(host, port, 5);
    settings_are_held(host, port, 6);
    settings_are_held(host, port, 7);
    settings_are_held(host, port, 8);
    settings_are_held(host, port, 9);
    settings_are_held(host, port, 10);
    settings_are_held(host, port, 11);
    settings_are_held(host, port, 12);
    settings_are_held(host, port, 13);
    settings_are_held(host, port, 14);
    permissions_are_blocked(host, port, 0);
    permissions_are_blocked(host, port, 1);
    permissions_are_blocked(host, port, 2);
    permissions_are_blocked(host, port, 3);
}

/// The browser gives away nothing of its place, its machine and the pages it comes from,
/// and none of that can be changed.
pub proof fn privacy_is_locked(host: Seq<char>, port: u16)
    ensures
        policy(host, port).contains(value_entry(("geo.enabled", Pref::Flag(false)))),
        policy(host, port).contains(status_entry(("geo.enabled", Pref::Flag(false)))),
        policy(host, port).contains(value_entry(("geo.provider.network.url", Pref::Text("")))),
        policy(host, port).contains(status_entry(("geo.provider.network.url", Pref::Text("")))),
        policy(host, port).contains(value_entry(("browser.region.network.url", Pref::Text("")))),
        policy(host, port).contains(status_entry(("browser.region.network.url", Pref::Text("")))),
        policy(host, port).contains(value_entry(("browser.search.geoSpecificDefaults", Pref::Flag(false)))),
        policy(host, port).contains(status_entry(("browser.search.geoSpecificDefaults", Pref::Flag(false)))),
        policy(host, port).contains(value_entry(("privacy.resistFingerprinting", Pref::Flag(true)))),
        policy(host, port).contains(status_entry(("privacy.resistFingerprinting", Pref::Flag(true)))),
        policy(host, port).contains(value_entry(("privacy.fingerprintingProtection", Pref::Flag(true)))),
        policy(host, port).contains(status_entry(("privacy.fingerprintingProtection", Pref::Flag(true)))),
        policy(host, port).contains(value_entry(("privacy.firstparty.isolate", Pref::Flag(true)))),
        policy(host, port).contains(status_entry(("privacy.firstparty.isolate", Pref::Flag(true)))),
        policy(host, port).contains(value_entry(("privacy.trackingprotection.fingerprinting.enabled", Pref::Flag(true)))),
        policy(host, port).contains(status_entry(("privacy.trackingprotection.fingerprinting.enabled", Pref::Flag(true)))),
        policy(host, port).contains(value_entry(("privacy.trackingprotection.cryptomining.enabled", Pref::Flag(true)))),
        policy(host, port).contains(status_entry(("privacy.trackingprotection.cryptomining.enabled", Pref::Flag(true)))),
        policy(host, port).contains(value_entry(("media.peerconnection.ice.default_address_only", Pref::Flag(true)))),
        policy(host, port).contains(status_entry(("media.peerconnection.ice.default_address_only", Pref::Flag(true)))),
        policy(host, port).contains(value_entry(("media.navigator.enabled", Pref::Flag(false)))),
        policy(host, port).contains(status_entry(("media.navigator.enabled", Pref::Flag(false)))),
        policy(host, port).contains(value_entry(("dom.event.clipboardevents.enabled", Pref::Flag(false)))),
        policy(host, port).contains(status_entry(("dom.event.clipboardevents.enabled", Pref::Flag(false)))),
        policy(host, port).contains(value_entry(("dom.battery.enabled", Pref::Flag(false)))),
        policy(host, port).contains(status_entry(("dom.battery.enabled", Pref::Flag(false)))),
        policy(host, port).contains(value_entry(("dom.webaudio.enabled", Pref::Flag(false)))),
        policy(host, port).contains(status_entry(("dom.webaudio.enabled", Pref::Flag(false)))),
        policy(host, port).contains(value_entry(("dom.gamepad.enabled", Pref::Flag(false)))),
        policy(host, port).contains(status_entry(("dom.gamepad.enabled", Pref::Flag(false)))),
        policy(host, port).contains(value_entry(("network.http.referer.XOriginPolicy", Pref::Number(1)))),
        policy(host, port).contains(status_entry(("network.http.referer.XOriginPolicy", Pref::Number(1)))),
        policy(host, port).contains(value_entry(("network.http.referer.XOriginTrimmingPolicy", Pref::Number(2)))),
        policy(host, port).contains(status_entry(("network.http.referer.XOriginTrimmingPolicy", Pref::Number(2)))),
        policy(host, port).contains(value_entry(("network.http.sendRefererHeader", Pref::Number(1)))),
        policy(host, port).contains(status_entry(("network.http.sendRefererHeader", Pref::Number(1)))),
{
    preferences_are_locked(host, port, 0);
    preferences_are_locked(host, port, 1);
    preferences_are_locked(host, port, 2);
    preferences_are_locked(host, port, 3);
    preferences_are_locked(host, port, 4);
    preferences_are_locked(host, port, 5);
    preferences_are_locked(host, port, 6);
    preferences_are_locked(host, port, 7);
    preferences_are_locked(host, port, 8);
    preferences_are_locked(host, port, 9);
    preferences_are_locked(host, port, 10);
    preferences_are_locked(host, port, 11);
    preferences_are_locked(host, port, 12);
    preferences_are_locked(host, port, 13);
    preferences_are_locked(host, port, 14);
    preferences_are_locked(host, port, 15);
    preferences_are_locked(host, port, 16);
    preferences_are_locked(host, port, 17);
}

/// The browser speaks one language everywhere and suggests nothing, and none of that can
/// be changed.
pub proof fn language_is_locked(host: Seq<char>, port: u16)
    ensures
        policy(host, port).contains(value_entry(("intl.accept_languages", Pref::Text("en-US, en")))),
        policy(host, port).contains(status_entry(("intl.accept_languages", Pref::Text("en-US, en")))),
        policy(host, port).contains(value_entry(("intl.locale.requested", Pref::Text("en-US")))),
        policy(host, port).contains(status_entry(("intl.locale.requested", Pref::Text("en-US")))),
        policy(host, port).contains(value_entry(("intl.locale.matchOS", Pref::Flag(false)))),
        policy(host, port).contains(status_entry(("intl.locale.matchOS", Pref::Flag(false)))),
        policy(host, port).contains(value_entry(("intl.regional_prefs.use_os_locales", Pref::Flag(false)))),
        policy(host, port).contains(status_entry(("intl.regional_prefs.use_os_locales", Pref::Flag(false)))),
        policy(host, port).contains(value_entry(("general.useragent.locale", Pref::Text("en-US")))),
        policy(host, port).contains(status_entry(("general.useragent.locale", Pref::Text("en-US")))),
        policy(host, port).contains(value_entry(("spellchecker.dictionary", Pref::Text("en-US")))),
        policy(host, port).contains(status_entry(("spellchecker.dictionary", Pref::Text("en-US")))),
        policy(host, port).contains(value_entry(("browser.search.suggest.enabled", Pref::Flag(false)))),
        policy(host, port).contains(status_entry(("browser.search.suggest.enabled", Pref::Flag(false)))),
        policy(host, port).contains(value_entry(("browser.urlbar.suggest.searches", Pref::Flag(false)))),
        policy(host, port).contains(status_entry(("browser.urlbar.suggest.searches", Pref::Flag(false)))),
        policy(host, port).contains(value_entry(("browser.urlbar.suggest.engines", Pref::Flag(false)))),
        policy(host, port).contains(status_entry(("browser.urlbar.suggest.engines", Pref::Flag(false)))),
        policy(host, port).contains(value_entry(("browser.newtabpage.activity-stream.feeds.section.topstories", Pref::Flag(false)))),
        policy(host, port).contains(status_entry(("browser.newtabpage.activity-stream.feeds.section.topstories", Pref::Flag(false)))),
        policy(host, port).contains(value_entry(("browser.newtabpage.activity-stream.showSponsored", Pref::Flag(false)))),
        policy(host, port).contains(status_entry(("browser.newtabpage.activity-stream.showSponsored", Pref::Flag(false)))),
        policy(host, port).contains(value_entry(("browser.newtabpage.activity-stream.showSponsoredTopSites", Pref::Flag(false)))),
        policy(host, port).contains(status_entry(("browser.newtabpage.activity-stream.showSponsoredTopSites", Pref::Flag(false)))),
        policy(host, port).contains(value_entry(("browser.newtabpage.activity-stream.section.highlights.includePocket", Pref::Flag(false)))),
        policy(host, port).contains(status_entry(("browser.newtabpage.activity-stream.section.highlights.includePocket", Pref::Flag(false)))),
        policy(host, port).contains(value_entry(("browser.discovery.enabled", Pref::Flag(false)))),
        policy(host, port).contains(status_entry(("browser.discovery.enabled", Pref::Flag(false)))),
        policy(host, port).contains(value_entry(("browser.translations.automaticPopup", Pref::Flag(false)))),
        policy(host, port).contains(status_entry(("browser.translations.automaticPopup", Pref::Flag(false)))),
        policy(host, port).contains(value_entry(("browser.translations.enable", Pref::Flag(false)))),
        policy(host, port).contains(status_entry(("browser.translations.enable", Pref::Flag(false)))),
        policy(host, port).contains(value_entry(("browser.region.update.enabled", Pref::Flag(false)))),
        policy(host, port).contains(status_entry(("browser.region.update.enabled", Pref::Flag(false)))),
        policy(host, port).contains(value_entry(("browser.search.geoip.url", Pref::Text("")))),
        policy(host, port).contains(status_entry(("browser.search.geoip.url", Pref::Text("")))),
        policy(host, port).contains(value_entry(("javascript.use_us_english_locale", Pref::Flag(true)))),
        policy(host, port).contains(status_entry(("javascript.use_us_english_locale", Pref::Flag(true)))),
{
    preferences_are_locked(host, port, 0);
    preferences_are_locked(host, port, 1);
    preferences_are_locked(host, port, 2);
    preferences_are_locked(host, port, 3);
    preferences_are_locked(host, port, 4);
    preferences_are_locked(host, port, 5);
    preferences_are_locked(host, port, 6);
    preferences_are_locked(host, port, 7);
    preferences_are_locked(host, port, 8);
    preferences_are_locked(host, port, 9);
    preferences_are_locked(host, port, 10);
    preferences_are_locked(host, port, 11);
    preferences_are_locked(host, port, 12);
    preferences_are_locked(host, port, 13);
    preferences_are_locked(host, port, 14);
    preferences_are_locked(host, port, 15);
    preferences_are_locked(host, port, 16);
    preferences_are_locked(host, port, 17);
    preferences_are_locked(host, port, 18);
}


} // verus!
