//! The command lines that are run on the router.

use crate::numbers::{decimal, decimal_text};
use crate::pfusers::errors::{Failure, PfError};
use crate::pfusers::shell::{shell_escape, shell_escaped};
use crate::text::{concat2, trim, trimmed};
use vstd::prelude::*;
use vstd::string::*;

verus! {

// ---------- Reading and writing the document ----------

/// The command that prints the document.
pub const READ_COMMAND: &'static str = "/bin/cat /cf/conf/config.xml";

/// The command that takes the document from its input: it is written beside the
/// old one first and then moved into its place.
pub const WRITE_COMMAND: &'static str = "/bin/cat > /cf/conf/config.xml.pfusers.tmp && /bin/mv /cf/conf/config.xml.pfusers.tmp /cf/conf/config.xml";

/// The command that counts the users as the router's own parser sees them.
pub const COUNT_COMMAND: &'static str = "/usr/local/bin/php -r 'require_once(\"config.inc\"); parse_config(true); echo count($config[\"system\"][\"user\"]);'";

/// Where the document is kept before it is changed.
pub open spec fn snapshot_name(seconds: nat) -> Seq<char> {
    "/cf/conf/backup/config-"@ + decimal(seconds) + "-pfusers.xml"@
}

/// The path of the snapshot taken at a time, in seconds since 1970.
pub fn snapshot_path(seconds: u64) -> (out: String)
    ensures
        out@ == snapshot_name(seconds as nat),
{
    let mut out = "/cf/conf/backup/config-".to_owned();
    out.append(decimal_text(seconds).as_str());
    out.append("-pfusers.xml");
    out
}

pub open spec fn snapshot_line(path: Seq<char>) -> Seq<char> {
    "/bin/cp /cf/conf/config.xml "@ + path
}

/// The command that copies the document to the snapshot.
pub fn snapshot_command(path: &str) -> (out: String)
    ensures
        out@ == snapshot_line(path@),
{
    concat2("/bin/cp /cf/conf/config.xml ", path)
}

pub open spec fn restore_line(path: Seq<char>) -> Seq<char> {
    "/bin/cp "@ + path + " /cf/conf/config.xml"@
}

/// The command that puts the snapshot back.
pub fn restore_command(path: &str) -> (out: String)
    ensures
        out@ == restore_line(path@),
{
    let mut out = concat2("/bin/cp ", path);
    out.append(" /cf/conf/config.xml");
    out
}

/// What a command that reads the document has printed: the document, unless it
/// complained.
pub open spec fn read_outcome(stdout: Seq<char>, stderr: Seq<char>) -> Result<Seq<char>, Failure> {
    if trimmed(stderr).len() > 0 {
        Err(Failure::ReadReported(trimmed(stderr)))
    } else {
        Ok(stdout)
    }
}

/// The document out of the output of `READ_COMMAND`.
pub fn read_config_xml(stdout: String, stderr: &str) -> (res: Result<String, PfError>)
    ensures
        match (res, read_outcome(stdout@, stderr@)) {
            (Ok(s), Ok(t)) => s@ == t,
            (Err(e), Err(f)) => e@ == f,
            _ => false,
        },
{
    let complaint = trim(stderr);
    if complaint.as_str().unicode_len() > 0 {
        Err(PfError::ReadReported(complaint))
    } else {
        Ok(stdout)
    }
}

/// Whether `WRITE_COMMAND` succeeded: it prints nothing then.
pub fn write_config_xml(stderr: &str) -> (res: Result<(), PfError>)
    ensures
        match res {
            Ok(_) => trimmed(stderr@).len() == 0,
            Err(e) => trimmed(stderr@).len() > 0 && e@ == Failure::WriteReported(trimmed(stderr@)),
        },
{
    let complaint = trim(stderr);
    if complaint.as_str().unicode_len() > 0 {
        Err(PfError::WriteReported(complaint))
    } else {
        Ok(())
    }
}

/// Whether a command succeeded: it prints nothing to its error output then.
pub fn exec_check(cmd: &str, stderr: &str) -> (res: Result<(), PfError>)
    ensures
        match res {
            Ok(_) => trimmed(stderr@).len() == 0,
            Err(e) => trimmed(stderr@).len() > 0 && e@ == Failure::CommandReported(
                cmd@,
                trimmed(stderr@),
            ),
        },
{
    let complaint = trim(stderr);
    if complaint.as_str().unicode_len() > 0 {
        Err(PfError::CommandReported(cmd.to_owned(), complaint))
    } else {
        Ok(())
    }
}

// ---------- Accounts ----------

pub open spec fn useradd_line(name: Seq<char>, uid: u32, shell: Seq<char>, descr: Seq<char>) -> Seq<
    char,
> {
    "/usr/sbin/pw useradd -n "@ + shell_escaped(name) + " -u "@ + decimal(uid as nat) + " -m -s "@
        + shell_escaped(shell) + " -c "@ + shell_escaped(descr) + " -G ''"@
}

/// The command that creates an account with a home directory.
pub fn pw_useradd(name: &str, uid: u32, shell: &str, descr: &str) -> (out: String)
    ensures
        out@ == useradd_line(name@, uid, shell@, descr@),
{
    let mut out = "/usr/sbin/pw useradd -n ".to_owned();
    out.append(shell_escape(name).as_str());
    out.append(" -u ");
    out.append(decimal_text(uid as u64).as_str());
    out.append(" -m -s ");
    out.append(shell_escape(shell).as_str());
    out.append(" -c ");
    out.append(shell_escape(descr).as_str());
    out.append(" -G ''");
    out
}

pub open spec fn usermod_line(name: Seq<char>, shell: Seq<char>) -> Seq<char> {
    "/usr/sbin/pw usermod -n "@ + shell_escaped(name) + " -s "@ + shell_escaped(shell)
}

/// The command that sets the login shell of an account.
pub fn pw_usermod_shell(name: &str, shell: &str) -> (out: String)
    ensures
        out@ == usermod_line(name@, shell@),
{
    let mut out = "/usr/sbin/pw usermod -n ".to_owned();
    out.append(shell_escape(name).as_str());
    out.append(" -s ");
    out.append(shell_escape(shell).as_str());
    out
}

pub open spec fn lock_line(name: Seq<char>, locked: bool) -> Seq<char> {
    (if locked {
        "/usr/sbin/pw lock -n "@
    } else {
        "/usr/sbin/pw unlock -n "@
    }) + shell_escaped(name)
}

/// The command that locks or unlocks an account.
pub fn pw_lock(name: &str, locked: bool) -> (out: String)
    ensures
        out@ == lock_line(name@, locked),
{
    if locked {
        concat2("/usr/sbin/pw lock -n ", shell_escape(name).as_str())
    } else {
        concat2("/usr/sbin/pw unlock -n ", shell_escape(name).as_str())
    }
}

pub open spec fn userdel_line(name: Seq<char>) -> Seq<char> {
    "/usr/sbin/pw userdel -n "@ + shell_escaped(name) + " -r"@
}

/// The command that removes an account and its home directory.
pub fn pw_userdel(name: &str) -> (out: String)
    ensures
        out@ == userdel_line(name@),
{
    let mut out = concat2("/usr/sbin/pw userdel -n ", shell_escape(name).as_str());
    out.append(" -r");
    out
}

pub open spec fn key_directory(name: Seq<char>) -> Seq<char> {
    "/home/"@ + name + "/.ssh"@
}

pub open spec fn key_file(name: Seq<char>) -> Seq<char> {
    key_directory(name) + "/authorized_keys"@
}

pub open spec fn keys_line(name: Seq<char>) -> Seq<char> {
    let dir = key_directory(name);
    let file = key_file(name);
    let owner = shell_escaped(name);
    "/bin/mkdir -p "@ + dir + " && /bin/chmod 700 "@ + dir + " && /bin/cat > "@ + file
        + " && /bin/chmod 600 "@ + file + " && /usr/sbin/chown -R "@ + owner + ":"@ + owner + " "@
        + dir
}

/// The command that takes the public keys of an account from its input.
pub fn write_authorized_keys(name: &str) -> (out: String)
    ensures
        out@ == keys_line(name@),
{
    let mut dir = concat2("/home/", name);
    dir.append("/.ssh");
    let file = concat2(dir.as_str(), "/authorized_keys");
    let owner = shell_escape(name);
    let mut out = concat2("/bin/mkdir -p ", dir.as_str());
    out.append(" && /bin/chmod 700 ");
    out.append(dir.as_str());
    out.append(" && /bin/cat > ");
    out.append(file.as_str());
    out.append(" && /bin/chmod 600 ");
    out.append(file.as_str());
    out.append(" && /usr/sbin/chown -R ");
    out.append(owner.as_str());
    out.append(":");
    out.append(owner.as_str());
    out.append(" ");
    out.append(dir.as_str());
    out
}

// ---------- What follows a change ----------

/// A command that follows a change, as text.
pub enum Order {
    Required(Seq<char>),
    Ignored(Seq<char>),
    Keys(Seq<char>, Seq<char>),
}

/// A command that follows a change of the document.
pub enum Command {
    /// A command that has to succeed.
    Required(String),
    /// A command whose failure is ignored.
    Ignored(String),
    /// A command that takes public keys from its input.
    Keys { line: String, keys: String },
}

impl View for Command {
    type V = Order;

    open spec fn view(&self) -> Order {
        match *self {
            Command::Required(line) => Order::Required(line@),
            Command::Ignored(line) => Order::Ignored(line@),
            Command::Keys { line, keys } => Order::Keys(line@, keys@),
        }
    }
}

pub open spec fn orders(v: Seq<Command>) -> Seq<Order> {
    Seq::new(v.len(), |i: int| v[i]@)
}

/// What comes of a command that printed `stderr` to its error output.
pub open spec fn order_outcome(order: Order, stderr: Seq<char>) -> Option<Failure> {
    if trimmed(stderr).len() == 0 {
        None
    } else {
        match order {
            Order::Required(line) => Some(Failure::CommandReported(line, trimmed(stderr))),
            Order::Ignored(_) => None,
            Order::Keys(_, _) => Some(Failure::KeysReported(trimmed(stderr))),
        }
    }
}

impl Command {
    /// Judges a command by what it printed to its error output.
    pub fn outcome(&self, stderr: &str) -> (res: Result<(), PfError>)
        ensures
            match (res, order_outcome(self@, stderr@)) {
                (Ok(_), None) => true,
                (Err(e), Some(f)) => e@ == f,
                _ => false,
            },
    {
        let complaint = trim(stderr);
        if complaint.as_str().unicode_len() == 0 {
            return Ok(());
        }
        match self {
            Command::Required(line) => {
                Err(PfError::CommandReported(line.as_str().to_owned(), complaint))
            },
            Command::Ignored(_) => Ok(()),
            Command::Keys { .. } => Err(PfError::KeysReported(complaint)),
        }
    }
}

} // verus!
