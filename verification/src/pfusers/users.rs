//! Users as the user interface shows them.

use crate::text::{contains_text, count_filled, count_filled_lines, lines, texts};
use vstd::prelude::*;

verus! {

/// A pfSense user.
#[derive(Debug, Clone, PartialEq, Eq)]
pub struct PfUser {
    pub name: String,
    pub descr: String,
    pub uid: i64,
    pub scope: String,
    pub expires: Option<String>,
    pub disabled: bool,
    pub groups: Vec<String>,
    pub priv_list: Vec<String>,
    /// One public key in OpenSSH format per line.
    pub authorized_keys: String,
    pub has_bcrypt: bool,
    pub has_sha512: bool,
    pub has_legacy_md5: bool,
}

/// A list of privileges that gives an interactive shell.
pub open spec fn grants_shell(list: Seq<Seq<char>>) -> bool {
    list.contains("user-shell-access"@) || list.contains("page-all"@)
}

/// The scope of a user that names none.
pub fn default_scope() -> (out: String)
    ensures
        out@ == "user"@,
{
    "user".to_owned()
}

impl PfUser {
    /// Whether `user-shell-access` or `page-all` is granted.
    pub fn has_shell_access(&self) -> (res: bool)
        ensures
            res == grants_shell(texts(self.priv_list@)),
    {
        let list = self.priv_list.as_slice();
        contains_text(list, "user-shell-access") || contains_text(list, "page-all")
    }

    /// Whether a bcrypt or a sha512 hash of a password is recorded. A legacy md5
    /// hash alone does not count, so that such a user can be flagged.
    pub fn has_password(&self) -> (res: bool)
        ensures
            res == (self.has_bcrypt || self.has_sha512),
    {
        self.has_bcrypt || self.has_sha512
    }

    /// Number of keys: of lines that hold more than white space.
    pub fn key_count(&self) -> (n: usize)
        ensures
            n == count_filled(lines(self.authorized_keys@)),
    {
        count_filled_lines(self.authorized_keys.as_str())
    }
}

/// The privileges that the user interface offers, each with its description.
pub fn canonical_privileges() -> (out: Vec<(&'static str, &'static str)>)
    ensures
        out@ == seq![
            ("page-all", "Web UI — full access (admin-equivalent)"),
            ("page-dashboard-all", "Web UI — dashboard"),
            ("page-system-usermanager", "Web UI — manage users"),
            ("page-system-usermanager-passwordmg", "Web UI — change own password"),
            ("page-diagnostics-command", "Web UI — shell-exec page (root-equivalent)"),
            ("page-diagnostics-backup-restore", "Web UI — backup/restore (root-equivalent)"),
            ("user-shell-access", "SSH — interactive shell (/bin/tcsh)"),
            ("user-copy-files", "SSH — SCP/SFTP system-wide"),
            ("user-copy-files-chroot", "SSH — SCP/SFTP chrooted to home"),
            ("user-ssh-tunnel", "SSH — port-forward only, no shell"),
            ("user-ipsec-xauth-dialin", "VPN — IPsec xauth"),
            ("user-l2tp-dialin", "VPN — L2TP dial-in"),
            ("user-pppoe-dialin", "VPN — PPPoE dial-in"),
            ("user-config-readonly", "Config — block writes from this user"),
        ],
{
    let mut out: Vec<(&'static str, &'static str)> = Vec::new();
    out.push(("page-all", "Web UI — full access (admin-equivalent)"));
    out.push(("page-dashboard-all", "Web UI — dashboard"));
    out.push(("page-system-usermanager", "Web UI — manage users"));
    out.push(("page-system-usermanager-passwordmg", "Web UI — change own password"));
    out.push(("page-diagnostics-command", "Web UI — shell-exec page (root-equivalent)"));
    out.push(("page-diagnostics-backup-restore", "Web UI — backup/restore (root-equivalent)"));
    out.push(("user-shell-access", "SSH — interactive shell (/bin/tcsh)"));
    out.push(("user-copy-files", "SSH — SCP/SFTP system-wide"));
    out.push(("user-copy-files-chroot", "SSH — SCP/SFTP chrooted to home"));
    out.push(("user-ssh-tunnel", "SSH — port-forward only, no shell"));
    out.push(("user-ipsec-xauth-dialin", "VPN — IPsec xauth"));
    out.push(("user-l2tp-dialin", "VPN — L2TP dial-in"));
    out.push(("user-pppoe-dialin", "VPN — PPPoE dial-in"));
    out.push(("user-config-readonly", "Config — block writes from this user"));
    out
}

} // verus!
