//! What can go wrong while users are read or changed.

use crate::numbers::{decimal, decimal_text, signed_decimal, signed_text};
use crate::text::{concat2, concat3, quoted, quoted_text};
use vstd::prelude::*;
use vstd::string::*;

verus! {

/// A failure, as text.
pub enum Failure {
    Xml(Seq<char>),
    NoSystemEnd,
    GroupNotFound(Seq<char>),
    UserNotInXml(Seq<char>),
    Unclosed(Seq<char>),
    ElementNotFound(Seq<char>),
    NoRoot,
    NoSystem,
    BadUid(Seq<char>, Seq<char>),
    NoNextUid,
    BadNextUid(Seq<char>),
    NameRequired,
    PasswordRequired,
    BadUsername(Seq<char>),
    LeadingDash,
    UserExists(Seq<char>),
    UserNotFound(Seq<char>),
    UidsExhausted,
    Hashing,
    ProtectedUser,
    NewUserMissing,
    UidMismatch(u32, u32),
    NextUidStale,
    UserMissingAfterWrite,
    DescrChanged,
    PrivChanged,
    StillPresent,
    UserMissing,
    HashMissing,
    NonNumericCount(Seq<char>),
    CountMismatch(int, int, int),
    ReadReported(Seq<char>),
    WriteReported(Seq<char>),
    CommandReported(Seq<char>, Seq<char>),
    KeysReported(Seq<char>),
}

/// A failure of a user operation.
#[derive(Debug, PartialEq, Eq)]
pub enum PfError {
    /// The document is not XML.
    Xml(String),
    /// `<system>` is not closed.
    NoSystemEnd,
    GroupNotFound(String),
    /// No `<user>` block has this name.
    UserNotInXml(String),
    /// An element is not closed.
    Unclosed(String),
    ElementNotFound(String),
    NoRoot,
    NoSystem,
    /// A uid that is no number, and the user it belongs to.
    BadUid(String, String),
    NoNextUid,
    BadNextUid(String),
    NameRequired,
    PasswordRequired,
    BadUsername(String),
    LeadingDash,
    UserExists(String),
    UserNotFound(String),
    /// `<nextuid>` is the largest number a uid can have.
    UidsExhausted,
    /// The password could not be hashed.
    Hashing,
    /// Uid 0 is not deleted.
    ProtectedUser,
    NewUserMissing,
    /// The uid that was read back, and the one that was written.
    UidMismatch(u32, u32),
    NextUidStale,
    UserMissingAfterWrite,
    DescrChanged,
    PrivChanged,
    StillPresent,
    UserMissing,
    HashMissing,
    NonNumericCount(String),
    /// How many users the router counts, how many are in the new document, and
    /// how many were in the old one.
    CountMismatch(i64, u64, u64),
    /// What was printed while the document was read.
    ReadReported(String),
    /// What was printed while the document was written.
    WriteReported(String),
    /// A command, and what it printed.
    CommandReported(String, String),
    /// What was printed while the keys were written.
    KeysReported(String),
}

impl View for PfError {
    type V = Failure;

    open spec fn view(&self) -> Failure {
        match *self {
            PfError::Xml(s) => Failure::Xml(s@),
            PfError::NoSystemEnd => Failure::NoSystemEnd,
            PfError::GroupNotFound(s) => Failure::GroupNotFound(s@),
            PfError::UserNotInXml(s) => Failure::UserNotInXml(s@),
            PfError::Unclosed(s) => Failure::Unclosed(s@),
            PfError::ElementNotFound(s) => Failure::ElementNotFound(s@),
            PfError::NoRoot => Failure::NoRoot,
            PfError::NoSystem => Failure::NoSystem,
            PfError::BadUid(s, n) => Failure::BadUid(s@, n@),
            PfError::NoNextUid => Failure::NoNextUid,
            PfError::BadNextUid(s) => Failure::BadNextUid(s@),
            PfError::NameRequired => Failure::NameRequired,
            PfError::PasswordRequired => Failure::PasswordRequired,
            PfError::BadUsername(s) => Failure::BadUsername(s@),
            PfError::LeadingDash => Failure::LeadingDash,
            PfError::UserExists(s) => Failure::UserExists(s@),
            PfError::UserNotFound(s) => Failure::UserNotFound(s@),
            PfError::UidsExhausted => Failure::UidsExhausted,
            PfError::Hashing => Failure::Hashing,
            PfError::ProtectedUser => Failure::ProtectedUser,
            PfError::NewUserMissing => Failure::NewUserMissing,
            PfError::UidMismatch(a, b) => Failure::UidMismatch(a, b),
            PfError::NextUidStale => Failure::NextUidStale,
            PfError::UserMissingAfterWrite => Failure::UserMissingAfterWrite,
            PfError::DescrChanged => Failure::DescrChanged,
            PfError::PrivChanged => Failure::PrivChanged,
            PfError::StillPresent => Failure::StillPresent,
            PfError::UserMissing => Failure::UserMissing,
            PfError::HashMissing => Failure::HashMissing,
            PfError::NonNumericCount(s) => Failure::NonNumericCount(s@),
            PfError::CountMismatch(a, b, c) => Failure::CountMismatch(a as int, b as int, c as int),
            PfError::ReadReported(s) => Failure::ReadReported(s@),
            PfError::WriteReported(s) => Failure::WriteReported(s@),
            PfError::CommandReported(c, s) => Failure::CommandReported(c@, s@),
            PfError::KeysReported(s) => Failure::KeysReported(s@),
        }
    }
}

/// The message of a failure.
pub open spec fn failure_text(f: Failure) -> Seq<char> {
    match f {
        Failure::Xml(s) => "parsing config.xml: "@ + s,
        Failure::NoSystemEnd => "no </system> found"@,
        Failure::GroupNotFound(s) => "group not found: "@ + s,
        Failure::UserNotInXml(s) => "user not found in XML: "@ + s,
        Failure::Unclosed(s) => "unclosed <"@ + s + ">"@,
        Failure::ElementNotFound(s) => "element not found: <"@ + s + ">"@,
        Failure::NoRoot => "no <pfsense> root element"@,
        Failure::NoSystem => "no <system> in <pfsense>"@,
        Failure::BadUid(s, n) => "parsing uid "@ + quoted(s) + " for user "@ + quoted(n),
        Failure::NoNextUid => "no <nextuid> in <system>"@,
        Failure::BadNextUid(s) => "parsing nextuid "@ + quoted(s),
        Failure::NameRequired => "name required"@,
        Failure::PasswordRequired => "password required"@,
        Failure::BadUsername(s) =>
            "username must contain only ASCII alphanumerics, '_', '-', '.': "@ + quoted(s),
        Failure::LeadingDash => "username can't start with '-'"@,
        Failure::UserExists(s) => "user already exists: "@ + s,
        Failure::UserNotFound(s) => "user not found: "@ + s,
        Failure::UidsExhausted => "no uid left"@,
        Failure::Hashing => "hashing password"@,
        Failure::ProtectedUser => "refusing to delete uid 0 (admin)"@,
        Failure::NewUserMissing => "post-write check: new user not found in XML"@,
        Failure::UidMismatch(a, b) => "post-write check: uid mismatch (got "@ + decimal(a as nat)
            + ", expected "@ + decimal(b as nat) + ")"@,
        Failure::NextUidStale => "post-write check: nextuid was not incremented"@,
        Failure::UserMissingAfterWrite => "post-write check: user not found after write"@,
        Failure::DescrChanged => "post-write check: descr did not round-trip"@,
        Failure::PrivChanged => "post-write check: priv list did not round-trip"@,
        Failure::StillPresent => "post-write check: user still present after delete"@,
        Failure::UserMissing => "post-write check: user not found"@,
        Failure::HashMissing => "post-write check: bcrypt-hash missing"@,
        Failure::NonNumericCount(s) => "pfSense PHP verify produced non-numeric: "@ + quoted(s),
        Failure::CountMismatch(a, b, c) => "pfSense parser saw "@ + signed_decimal(a)
            + " users; our parser saw "@ + signed_decimal(b) + ". Pre-write count was "@
            + signed_decimal(c) + ". Rolling back."@,
        Failure::ReadReported(s) => "cat /cf/conf/config.xml reported errors: "@ + s,
        Failure::WriteReported(s) => "writing config.xml: "@ + s,
        Failure::CommandReported(c, s) => "`"@ + c + "` reported: "@ + s,
        Failure::KeysReported(s) => "writing authorized_keys: "@ + s,
    }
}

impl PfError {
    /// The message of the error.
    pub fn message(&self) -> (out: String)
        ensures
            out@ == failure_text(self@),
    {
        match self {
            PfError::Xml(s) => concat2("parsing config.xml: ", s.as_str()),
            PfError::NoSystemEnd => "no </system> found".to_owned(),
            PfError::GroupNotFound(s) => concat2("group not found: ", s.as_str()),
            PfError::UserNotInXml(s) => concat2("user not found in XML: ", s.as_str()),
            PfError::Unclosed(s) => concat3("unclosed <", s.as_str(), ">"),
            PfError::ElementNotFound(s) => concat3("element not found: <", s.as_str(), ">"),
            PfError::NoRoot => "no <pfsense> root element".to_owned(),
            PfError::NoSystem => "no <system> in <pfsense>".to_owned(),
            PfError::BadUid(s, n) => {
                let mut out = concat3(
                    "parsing uid ",
                    quoted_text(s.as_str()).as_str(),
                    " for user ",
                );
                out.append(quoted_text(n.as_str()).as_str());
                out
            },
            PfError::NoNextUid => "no <nextuid> in <system>".to_owned(),
            PfError::BadNextUid(s) => concat2("parsing nextuid ", quoted_text(s.as_str()).as_str()),
            PfError::NameRequired => "name required".to_owned(),
            PfError::PasswordRequired => "password required".to_owned(),
            PfError::BadUsername(s) => concat2(
                "username must contain only ASCII alphanumerics, '_', '-', '.': ",
                quoted_text(s.as_str()).as_str(),
            ),
            PfError::LeadingDash => "username can't start with '-'".to_owned(),
            PfError::UserExists(s) => concat2("user already exists: ", s.as_str()),
            PfError::UserNotFound(s) => concat2("user not found: ", s.as_str()),
            PfError::UidsExhausted => "no uid left".to_owned(),
            PfError::Hashing => "hashing password".to_owned(),
            PfError::ProtectedUser => "refusing to delete uid 0 (admin)".to_owned(),
            PfError::NewUserMissing => "post-write check: new user not found in XML".to_owned(),
            PfError::UidMismatch(a, b) => {
                let mut out = concat3(
                    "post-write check: uid mismatch (got ",
                    decimal_text(*a as u64).as_str(),
                    ", expected ",
                );
                out.append(decimal_text(*b as u64).as_str());
                out.append(")");
                out
            },
            PfError::NextUidStale => "post-write check: nextuid was not incremented".to_owned(),
            PfError::UserMissingAfterWrite => {
                "post-write check: user not found after write".to_owned()
            },
            PfError::DescrChanged => "post-write check: descr did not round-trip".to_owned(),
            PfError::PrivChanged => "post-write check: priv list did not round-trip".to_owned(),
            PfError::StillPresent => "post-write check: user still present after delete".to_owned(),
            PfError::UserMissing => "post-write check: user not found".to_owned(),
            PfError::HashMissing => "post-write check: bcrypt-hash missing".to_owned(),
            PfError::NonNumericCount(s) => concat2(
                "pfSense PHP verify produced non-numeric: ",
                quoted_text(s.as_str()).as_str(),
            ),
            PfError::CountMismatch(a, b, c) => {
                let mut out = concat3(
                    "pfSense parser saw ",
                    signed_text(*a).as_str(),
                    " users; our parser saw ",
                );
                out.append(decimal_text(*b).as_str());
                out.append(". Pre-write count was ");
                out.append(decimal_text(*c).as_str());
                out.append(". Rolling back.");
                out
            },
            PfError::ReadReported(s) => {
                concat2("cat /cf/conf/config.xml reported errors: ", s.as_str())
            },
            PfError::WriteReported(s) => concat2("writing config.xml: ", s.as_str()),
            PfError::CommandReported(c, s) => {
                let mut out = concat3("`", c.as_str(), "` reported: ");
                out.append(s.as_str());
                out
            },
            PfError::KeysReported(s) => concat2("writing authorized_keys: ", s.as_str()),
        }
    }
}

} // verus!
