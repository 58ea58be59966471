//! Releases: whether there is one that is newer than the running program.

use crate::text::{
    chars_of, concat3, contains, contains_seq, ends_in, ends_with, lemma_parts_first, opt_text,
    parts, string_of, trim, trimmed,
};
use crate::numbers::{all_digits, decimal, decimal_is_digits, decimal_text, is_digit};
use vstd::prelude::*;
use vstd::string::*;

verus! {

/// Where the latest release is described.
pub const RELEASES_URL: &'static str = "https://api.github.com/repos/jmpnop/belka-tunnel/releases/latest";

// ---------- Versions ----------

/// A version, as text.
pub struct Parts {
    pub major: u64,
    pub minor: u64,
    pub patch: u64,
    pub pre: Seq<char>,
    pub build: Seq<char>,
}

/// A semantic version.
#[derive(Debug, Clone, PartialEq, Eq)]
pub struct Version {
    pub major: u64,
    pub minor: u64,
    pub patch: u64,
    /// The identifiers of a pre-release; empty for a release.
    pub pre: String,
    /// Build metadata; often empty.
    pub build: String,
}

impl View for Version {
    type V = Parts;

    open spec fn view(&self) -> Parts {
        Parts {
            major: self.major,
            minor: self.minor,
            patch: self.patch,
            pre: self.pre@,
            build: self.build@,
        }
    }
}

/// A version as text.
pub open spec fn version_text(v: Parts) -> Seq<char> {
    decimal(v.major as nat) + "."@ + decimal(v.minor as nat) + "."@ + decimal(v.patch as nat) + (
    if v.pre.len() > 0 {
        "-"@ + v.pre
    } else {
        Seq::empty()
    }) + (if v.build.len() > 0 {
        "+"@ + v.build
    } else {
        Seq::empty()
    })
}

impl Version {
    /// A release.
    pub fn new(major: u64, minor: u64, patch: u64) -> (out: Version)
        ensures
            out@ == (Parts { major, minor, patch, pre: Seq::empty(), build: Seq::empty() }),
    {
        let out = Version { major, minor, patch, pre: String::new(), build: String::new() };
        assert(out.pre@ =~= Seq::empty());
        assert(out.build@ =~= Seq::empty());
        out
    }

    /// The version as text.
    pub fn text(&self) -> (out: String)
        ensures
            out@ == version_text(self@),
    {
        let mut out = decimal_text(self.major);
        out.append(".");
        out.append(decimal_text(self.minor).as_str());
        out.append(".");
        out.append(decimal_text(self.patch).as_str());
        let ghost numbers = out@;
        if self.pre.as_str().unicode_len() > 0 {
            out.append("-");
            out.append(self.pre.as_str());
            assert(out@ =~= numbers + ("-"@ + self.pre@));
        } else {
            assert(out@ =~= numbers + Seq::<char>::empty());
        }
        let ghost named = out@;
        if self.build.as_str().unicode_len() > 0 {
            out.append("+");
            out.append(self.build.as_str());
            assert(out@ =~= named + ("+"@ + self.build@));
        } else {
            assert(out@ =~= named + Seq::<char>::empty());
        }
        out
    }
}

/// What `semver::Version::parse` makes of a text: the version, or its message.
pub uninterp spec fn semver_parsed(text: Seq<char>) -> Result<Parts, Seq<char>>;

/// `semver::Version::parse`, under the name `semver_parsed`.
#[verifier::external_body]
fn parse_semver(text: &str) -> (res: Result<Version, String>)
    ensures
        match res {
            Ok(v) => semver_parsed(text@) == Ok::<Parts, Seq<char>>(v@),
            Err(e) => semver_parsed(text@) == Err::<Parts, Seq<char>>(e@),
        },
{
    match semver::Version::parse(text) {
        Ok(v) => Ok(Version {
            major: v.major,
            minor: v.minor,
            patch: v.patch,
            pre: v.pre.as_str().to_owned(),
            build: v.build.as_str().to_owned(),
        }),
        Err(e) => Err(e.to_string()),
    }
}

/// Whether the version written `a` is greater than the version written `b`.
pub uninterp spec fn semver_greater(a: Seq<char>, b: Seq<char>) -> bool;

/// The numbers of `a` come behind those of `b`: the first of major, minor and patch
/// that differs is greater.
pub open spec fn numbers_greater(a: Parts, b: Parts) -> bool {
    ||| a.major > b.major
    ||| a.major == b.major && a.minor > b.minor
    ||| a.major == b.major && a.minor == b.minor && a.patch > b.patch
}

pub open spec fn same_numbers(a: Parts, b: Parts) -> bool {
    a.major == b.major && a.minor == b.minor && a.patch == b.patch
}

/// The `>` of `semver::Version`, under the name `semver_greater`. Where the numbers
/// differ they decide; a version is not greater than itself; and a pre-release is
/// less than its release.
#[verifier::external_body]
fn is_greater(a: &str, b: &str) -> (res: bool)
    requires
        semver_parsed(a@) is Ok,
        semver_parsed(b@) is Ok,
    ensures
        res == semver_greater(a@, b@),
        !same_numbers(semver_parsed(a@)->Ok_0, semver_parsed(b@)->Ok_0) ==> res == numbers_greater(
            semver_parsed(a@)->Ok_0,
            semver_parsed(b@)->Ok_0,
        ),
        semver_parsed(a@)->Ok_0 == semver_parsed(b@)->Ok_0 ==> !res,
        same_numbers(semver_parsed(a@)->Ok_0, semver_parsed(b@)->Ok_0) && (semver_parsed(
            a@,
        )->Ok_0.pre.len() == 0) != (semver_parsed(b@)->Ok_0.pre.len() == 0) ==> res == (
        semver_parsed(a@)->Ok_0.pre.len() == 0),
{
    match (semver::Version::parse(a), semver::Version::parse(b)) {
        (Ok(a), Ok(b)) => a > b,
        _ => false,
    }
}

/// `s` without the letters `v` in front.
pub open spec fn without_v(s: Seq<char>) -> Seq<char>
    decreases s.len(),
{
    if s.len() > 0 && s[0] == 'v' {
        without_v(s.drop_first())
    } else {
        s
    }
}

/// The part of a tag that is a version.
pub open spec fn bare_version(tag: Seq<char>) -> Seq<char> {
    without_v(trimmed(tag))
}

fn strip_tag(tag: &str) -> (out: String)
    ensures
        out@ == bare_version(tag@),
{
    let text = trim(tag);
    let chars = chars_of(text.as_str());
    let mut from: usize = 0;
    assert(text@.skip(0) =~= text@);
    while from < chars.len() && chars[from] == 'v'
        invariant
            chars@ == text@,
            from <= chars.len(),
            without_v(text@) == without_v(text@.skip(from as int)),
        decreases chars.len() - from,
    {
        assert(text@.skip(from as int).drop_first() =~= text@.skip(from + 1));
        from = from + 1;
    }
    let out = string_of(&chars[from..chars.len()]);
    assert(out@ =~= text@.skip(from as int));
    out
}

/// What is wrong with a version that is none.
pub open spec fn version_failure(tag: Seq<char>, reason: Seq<char>) -> Seq<char> {
    "not a semver: "@ + bare_version(tag) + " ("@ + reason + ")"@
}

/// Parses a version, with or without a `v` in front.
pub fn parse_version(s: &str) -> (res: Result<Version, String>)
    ensures
        match (res, semver_parsed(bare_version(s@))) {
            (Ok(v), Ok(wanted)) => v@ == wanted,
            (Err(text), Err(reason)) => text@ == version_failure(s@, reason),
            _ => false,
        },
{
    let text = strip_tag(s);
    match parse_semver(text.as_str()) {
        Ok(v) => Ok(v),
        Err(reason) => {
            let mut out = concat3("not a semver: ", text.as_str(), " (");
            out.append(reason.as_str());
            out.append(")");
            Err(out)
        },
    }
}

// ---------- Releases ----------

/// A file of a release.
#[derive(Debug, Clone, PartialEq, Eq)]
pub struct Asset {
    pub name: String,
    pub browser_download_url: String,
}

/// A published release.
#[derive(Debug, Clone, PartialEq, Eq)]
pub struct Release {
    pub tag_name: String,
    pub html_url: String,
    pub assets: Vec<Asset>,
    pub draft: bool,
    pub prerelease: bool,
}

/// A release that is newer than the running program.
#[derive(Debug, Clone, PartialEq, Eq)]
pub struct UpdateInfo {
    pub latest_version: String,
    pub release_url: String,
    pub asset_url: Option<String>,
}

/// The disk image among the files of a release.
pub open spec fn is_image(name: Seq<char>) -> bool {
    ends_in(name, ".dmg"@) && contains_seq(name, "BelkaTunnel"@)
}

/// Where the first disk image can be downloaded.
pub open spec fn image_url(assets: Seq<Asset>) -> Option<Seq<char>>
    decreases assets.len(),
{
    if assets.len() == 0 {
        None
    } else if is_image(assets[0].name@) {
        Some(assets[0].browser_download_url@)
    } else {
        image_url(assets.drop_first())
    }
}

fn find_image(assets: &Vec<Asset>) -> (res: Option<String>)
    ensures
        opt_text(res) == image_url(assets@),
{
    let mut i: usize = 0;
    assert(assets@.skip(0) =~= assets@);
    while i < assets.len()
        invariant
            i <= assets.len(),
            image_url(assets@) == image_url(assets@.skip(i as int)),
        decreases assets.len() - i,
    {
        assert(assets@.skip(i as int).drop_first() =~= assets@.skip(i + 1));
        let name = assets[i].name.as_str();
        if ends_with(name, ".dmg") && contains(name, "BelkaTunnel") {
            return Some(assets[i].browser_download_url.clone());
        }
        i = i + 1;
    }
    None
}

/// What a release means for the running program.
pub enum News {
    /// There is nothing newer.
    Nothing,
    /// There is a newer release.
    Update,
    /// A version cannot be read.
    Unreadable(Seq<char>),
}

/// What a release means, given whether its version is greater.
pub open spec fn news(release: Release, current: Seq<char>) -> News {
    let latest = bare_version(release.tag_name@);
    if release.draft || release.prerelease {
        News::Nothing
    } else {
        match (semver_parsed(latest), semver_parsed(bare_version(current))) {
            (Err(reason), _) => News::Unreadable(
                "parse tag "@ + release.tag_name@ + ": "@ + version_failure(
                    release.tag_name@,
                    reason,
                ),
            ),
            (Ok(_), Err(reason)) => News::Unreadable(
                "parse current version "@ + current + ": "@ + version_failure(current, reason),
            ),
            (Ok(_), Ok(_)) => if semver_greater(latest, bare_version(current)) {
                News::Update
            } else {
                News::Nothing
            },
        }
    }
}

/// What is shown of a newer release.
pub fn update_info(release: &Release) -> (out: UpdateInfo)
    ensures
        out.latest_version@ == release.tag_name@,
        out.release_url@ == release.html_url@,
        opt_text(out.asset_url) == image_url(release.assets@),
{
    UpdateInfo {
        latest_version: release.tag_name.clone(),
        release_url: release.html_url.clone(),
        asset_url: find_image(&release.assets),
    }
}

/// Compares a release with the running program. Drafts and pre-releases are passed
/// over, and so is a release that is not newer.
pub fn check_for_update(release: &Release, current_version: &str) -> (res: Result<
    Option<UpdateInfo>,
    String,
>)
    ensures
        match news(*release, current_version@) {
            News::Nothing => res matches Ok(None),
            News::Update => res matches Ok(Some(info)) && {
                &&& info.latest_version@ == release.tag_name@
                &&& info.release_url@ == release.html_url@
                &&& opt_text(info.asset_url) == image_url(release.assets@)
            },
            News::Unreadable(text) => res matches Err(e) && e@ == text,
        },
{
    if release.draft || release.prerelease {
        return Ok(None);
    }
    match parse_version(release.tag_name.as_str()) {
        Ok(_) => {},
        Err(e) => {
            let mut out = concat3("parse tag ", release.tag_name.as_str(), ": ");
            out.append(e.as_str());
            return Err(out);
        },
    }
    match parse_version(current_version) {
        Ok(_) => {},
        Err(e) => {
            let mut out = concat3("parse current version ", current_version, ": ");
            out.append(e.as_str());
            return Err(out);
        },
    }
    let latest = strip_tag(release.tag_name.as_str());
    let current = strip_tag(current_version);
    if !is_greater(latest.as_str(), current.as_str()) {
        return Ok(None);
    }
    Ok(Some(update_info(release)))
}

// ---------- What is shown ----------

impl UpdateInfo {
    /// The title of the notification.
    pub fn title(&self) -> (out: String)
        ensures
            out@ == "БелкаТуннель "@ + self.latest_version@ + " is available"@,
    {
        concat3("БелкаТуннель ", self.latest_version.as_str(), " is available")
    }

    /// The page that is opened: the download where there is one.
    pub fn url(&self) -> (out: String)
        ensures
            out@ == (match opt_text(self.asset_url) {
                Some(url) => url,
                None => self.release_url@,
            }),
    {
        match &self.asset_url {
            Some(url) => url.clone(),
            None => self.release_url.clone(),
        }
    }
}

/// The text of the notification.
pub fn update_body(current: &str) -> (out: String)
    ensures
        out@ == "You're on "@ + current@ + ". Click to view release notes / download."@,
{
    concat3("You're on ", current, ". Click to view release notes / download.")
}

// ---------- Laws ----------

/// A tag is a version behind any number of letters `v`: no other letter is taken away,
/// and none is left in front.
pub proof fn tags_are_versions(tag: Seq<char>)
    ensures
        ({
            let text = trimmed(tag);
            let bare = bare_version(tag);
            &&& bare.len() <= text.len()
            &&& bare == text.skip(text.len() - bare.len())
            &&& forall|i: int| 0 <= i < text.len() - bare.len() ==> #[trigger] text[i] == 'v'
            &&& bare.len() > 0 ==> bare[0] != 'v'
        }),
{
    lemma_without_v(trimmed(tag));
}

proof fn lemma_without_v(s: Seq<char>)
    ensures
        without_v(s).len() <= s.len(),
        without_v(s) == s.skip(s.len() - without_v(s).len()),
        forall|i: int| 0 <= i < s.len() - without_v(s).len() ==> #[trigger] s[i] == 'v',
        without_v(s).len() > 0 ==> without_v(s)[0] != 'v',
    decreases s.len(),
{
    if s.len() > 0 && s[0] == 'v' {
        let rest = s.drop_first();
        lemma_without_v(rest);
        let n = without_v(rest).len();
        assert(s.skip(s.len() - n) =~= rest.skip(rest.len() - n));
        assert forall|i: int| 0 <= i < s.len() - n implies #[trigger] s[i] == 'v' by {
            if i > 0 {
                assert(s[i] == rest[i - 1]);
            }
        }
    } else {
        assert(s.skip(0) =~= s);
    }
}

/// The first disk image is offered: a file whose name ends in `.dmg` and speaks of the
/// program. Without one, none is.
pub proof fn the_first_image_is_offered(assets: Seq<Asset>, at: int)
    ensures
        0 <= at < assets.len() && (forall|i: int|
            0 <= i < at ==> !(ends_in((#[trigger] assets[i]).name@, ".dmg"@) && contains_seq(
                assets[i].name@,
                "BelkaTunnel"@,
            ))) && ends_in(assets[at].name@, ".dmg"@) && contains_seq(
            assets[at].name@,
            "BelkaTunnel"@,
        ) ==> image_url(assets) == Some(assets[at].browser_download_url@),
        (forall|i: int|
            0 <= i < assets.len() ==> !(ends_in((#[trigger] assets[i]).name@, ".dmg"@)
                && contains_seq(assets[i].name@, "BelkaTunnel"@))) ==> image_url(assets) is None,
    decreases assets.len(),
{
    if assets.len() > 0 {
        let rest = assets.drop_first();
        the_first_image_is_offered(rest, at - 1);
        assert(forall|i: int| 0 <= i < rest.len() ==> #[trigger] rest[i] == assets[i + 1]);
        assert(0 < at < assets.len() ==> rest[at - 1] == assets[at]);
        assert(assets[0] == assets[0]);
    }
}

/// A draft or a pre-release is never news. Of any other release a greater version is,
/// where both versions can be read; and where one of them cannot be, that is told.
pub proof fn greater_releases_are_news(release: Release, current: Seq<char>)
    ensures
        release.draft || release.prerelease ==> news(release, current) is Nothing,
        !release.draft && !release.prerelease ==> {
            let latest = semver_parsed(bare_version(release.tag_name@));
            let running = semver_parsed(bare_version(current));
            &&& news(release, current) is Unreadable <==> latest is Err || running is Err
            &&& news(release, current) is Update <==> latest is Ok && running is Ok
                && semver_greater(bare_version(release.tag_name@), bare_version(current))
        },
{
}


/// The numbers of a release, written out, stand between its dots; what is behind a dash
/// or a plus is written behind them.
pub proof fn versions_are_written_out(v: Parts)
    ensures
        v.pre.len() == 0 && v.build.len() == 0 ==> parts(version_text(v), '.') == seq![
            decimal(v.major as nat),
            decimal(v.minor as nat),
            decimal(v.patch as nat),
        ],
        v.build.len() > 0 ==> ends_in(version_text(v), seq!['+'] + v.build),
        v.build.len() == 0 && v.pre.len() > 0 ==> ends_in(version_text(v), seq!['-'] + v.pre),
{
    reveal_strlit(".");
    reveal_strlit("-");
    reveal_strlit("+");
    let a = decimal(v.major as nat);
    let b = decimal(v.minor as nat);
    let c = decimal(v.patch as nat);
    decimal_is_digits(v.major as nat);
    decimal_is_digits(v.minor as nat);
    decimal_is_digits(v.patch as nat);
    lemma_no_dot(a);
    lemma_no_dot(b);
    lemma_no_dot(c);
    let dot = seq!['.'];
    let text = version_text(v);
    if v.pre.len() == 0 && v.build.len() == 0 {
        assert(text =~= a + dot + (b + dot + c));
        lemma_parts_first(a, b + dot + c, '.');
        lemma_parts_first(b, c, '.');
        lemma_parts_first(c, Seq::empty(), '.');
        assert(seq![a] + (seq![b] + seq![c]) =~= seq![a, b, c]);
    }
    if v.build.len() > 0 {
        let tail = seq!['+'] + v.build;
        assert(text.subrange(text.len() - tail.len(), text.len() as int) =~= tail);
    } else if v.pre.len() > 0 {
        let tail = seq!['-'] + v.pre;
        assert(text.subrange(text.len() - tail.len(), text.len() as int) =~= tail);
    }
}

proof fn lemma_no_dot(digits: Seq<char>)
    requires
        all_digits(digits),
    ensures
        !digits.contains('.'),
{
    if digits.contains('.') {
        let i = choose|i: int| 0 <= i < digits.len() && digits[i] == '.';
        assert(is_digit(digits[i]));
    }
}


} // verus!
