//! The connection to the router: its host key, and what commands print.

use crate::bytes::extend;
use crate::hostkey::{accepts, accepts_key, fingerprint, fingerprint_of};
use crate::pfusers::pfsense::{lossy, lossy_text};
use crate::text::{concat2, opt_text};
use vstd::prelude::*;
use vstd::string::*;

verus! {

/// Seconds after which a silent connection is given up.
pub const INACTIVITY_SECONDS: u64 = 60;

/// Judges the key that the router presents.
#[derive(Debug, Clone)]
pub struct HostKeyVerifier {
    /// The fingerprint that is recorded, if any.
    pub expected: Option<String>,
    /// The fingerprint that the router presented.
    pub observed: Option<String>,
}

impl HostKeyVerifier {
    /// Keeps the fingerprint of a key, given in its wire form, and says whether the
    /// key is accepted: where none is recorded, or where it is the recorded one.
    pub fn check_server_key(&mut self, key: &[u8]) -> (res: bool)
        ensures
            opt_text(final(self).observed) == fingerprint(key@),
            final(self).expected == old(self).expected,
            res == accepts(opt_text(old(self).expected), fingerprint(key@)),
    {
        let observed = fingerprint_of(key);
        let res = accepts_key(&self.expected, &observed);
        self.observed = observed;
        res
    }
}

/// The message of a login that was refused.
pub fn rejected(host: &str) -> (out: String)
    ensures
        out@ == "publickey authentication rejected by "@ + host@,
{
    concat2("publickey authentication rejected by ", host)
}

/// What a command printed, and how it ended.
#[derive(Debug, Clone)]
pub struct ExecResult {
    pub stdout: String,
    pub stderr: String,
    pub exit_status: Option<u32>,
}

/// What came through the channel of a command.
pub enum ExecEvent {
    /// Bytes of the output.
    Output(Vec<u8>),
    /// Bytes of another stream: the error output is stream one.
    Extended(u32, Vec<u8>),
    ExitStatus(u32),
    /// The end of the output, or of the channel.
    End,
    /// Anything else.
    Other,
}

/// What a command has printed so far.
pub struct ExecOutput {
    pub stdout: Vec<u8>,
    pub stderr: Vec<u8>,
    pub exit_status: Option<u32>,
}

/// What was printed to the output after an event.
pub open spec fn heard(before: Seq<u8>, event: ExecEvent) -> Seq<u8> {
    match event {
        ExecEvent::Output(data) => before + data@,
        _ => before,
    }
}

/// What was printed to the error output after an event.
pub open spec fn complained(before: Seq<u8>, event: ExecEvent) -> Seq<u8> {
    match event {
        ExecEvent::Extended(ext, data) => if ext == 1 {
            before + data@
        } else {
            before
        },
        _ => before,
    }
}

/// How the command ended, after an event.
pub open spec fn ended(before: Option<u32>, event: ExecEvent) -> Option<u32> {
    match event {
        ExecEvent::ExitStatus(code) => Some(code),
        _ => before,
    }
}

impl ExecOutput {
    pub fn new() -> (out: ExecOutput)
        ensures
            out.stdout@ == Seq::<u8>::empty(),
            out.stderr@ == Seq::<u8>::empty(),
            out.exit_status is None,
    {
        ExecOutput { stdout: Vec::new(), stderr: Vec::new(), exit_status: None }
    }

    /// Takes in an event, and says whether more are to be waited for.
    pub fn observe(&mut self, event: &ExecEvent) -> (more: bool)
        ensures
            more == !(event is End),
            final(self).stdout@ == heard(old(self).stdout@, *event),
            final(self).stderr@ == complained(old(self).stderr@, *event),
            final(self).exit_status == ended(old(self).exit_status, *event),
            final(self).stdout@ == (match *event {
                ExecEvent::Output(data) => old(self).stdout@ + data@,
                _ => old(self).stdout@,
            }),
            final(self).stderr@ == (match *event {
                ExecEvent::Extended(ext, data) => if ext == 1 {
                    old(self).stderr@ + data@
                } else {
                    old(self).stderr@
                },
                _ => old(self).stderr@,
            }),
            final(self).exit_status == (match *event {
                ExecEvent::ExitStatus(code) => Some(code),
                _ => old(self).exit_status,
            }),
    {
        match event {
            ExecEvent::Output(data) => {
                extend(&mut self.stdout, data.as_slice());
                true
            },
            ExecEvent::Extended(ext, data) => {
                if *ext == 1 {
                    extend(&mut self.stderr, data.as_slice());
                }
                true
            },
            ExecEvent::ExitStatus(code) => {
                self.exit_status = Some(*code);
                true
            },
            ExecEvent::End => false,
            ExecEvent::Other => true,
        }
    }

    /// What the command printed, as text.
    pub fn finish(&self) -> (out: ExecResult)
        ensures
            out.stdout@ == lossy(self.stdout@),
            out.stderr@ == lossy(self.stderr@),
            out.exit_status == self.exit_status,
    {
        ExecResult {
            stdout: lossy_text(&self.stdout),
            stderr: lossy_text(&self.stderr),
            exit_status: self.exit_status,
        }
    }
}

/// Bytes of the output are added to the output, and those of the first other stream to
/// the error output; whatever else comes adds to neither, and only an exit status says
/// how the command ended.
pub proof fn streams_are_kept_apart(before: Seq<u8>, status: Option<u32>, event: ExecEvent)
    ensures
        event matches ExecEvent::Output(data) ==> heard(before, event) == before + data@
            && complained(before, event) == before,
        event matches ExecEvent::Extended(stream, data) ==> heard(before, event) == before
            && complained(before, event) == if stream == 1 {
            before + data@
        } else {
            before
        },
        !(event is Output) && !(event is Extended) ==> heard(before, event) == before && complained(
            before,
            event,
        ) == before,
        event matches ExecEvent::ExitStatus(code) ==> ended(status, event) == Some(code),
        !(event is ExitStatus) ==> ended(status, event) == status,
{
}


} // verus!
