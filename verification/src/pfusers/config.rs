//! How the router is reached.

use crate::text::concat2;
use vstd::prelude::*;
use vstd::string::*;

verus! {

/// Where the router is, and how to log in.
#[derive(Debug, Clone, PartialEq, Eq)]
pub struct SshConfig {
    pub host: String,
    pub port: u16,
    pub user: String,
    pub key_path: String,
    /// The host key that was seen first; none until then.
    pub host_key_fingerprint: Option<String>,
}

/// The configuration of the user manager.
#[derive(Debug, Clone, PartialEq, Eq)]
pub struct AppConfig {
    pub ssh: SshConfig,
}

impl AppConfig {
    /// A new configuration of a user with the given home directory.
    pub fn standard(home: &str) -> (out: AppConfig)
        ensures
            out.ssh.host@ == "192.168.1.1"@,
            out.ssh.port == 22222,
            out.ssh.user@ == "admin"@,
            out.ssh.key_path@ == home@ + "/.ssh/id_ed25519"@,
            out.ssh.host_key_fingerprint is None,
    {
        AppConfig {
            ssh: SshConfig {
                host: "192.168.1.1".to_owned(),
                port: 22222,
                user: "admin".to_owned(),
                key_path: concat2(home, "/.ssh/id_ed25519"),
                host_key_fingerprint: None,
            },
        }
    }

    /// Records the host key that was seen.
    pub fn record(&mut self, fingerprint: String)
        ensures
            final(self).ssh.host_key_fingerprint matches Some(f) && f@ == fingerprint@,
            final(self).ssh.host == old(self).ssh.host,
            final(self).ssh.port == old(self).ssh.port,
            final(self).ssh.user == old(self).ssh.user,
            final(self).ssh.key_path == old(self).ssh.key_path,
    {
        self.ssh.host_key_fingerprint = Some(fingerprint);
    }
}

} // verus!
