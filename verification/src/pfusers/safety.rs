//! Writing the document without losing it: a snapshot, the write, a check of what
//! is read back, a count by the router's own parser, and the way back where one
//! of these fails.

use crate::numbers::{parse_i64, parsed_signed};
use crate::pfusers::commands::{
    exec_check, read_config_xml, read_outcome, restore_command, restore_line, snapshot_command,
    snapshot_line, write_config_xml, COUNT_COMMAND, READ_COMMAND, WRITE_COMMAND,
};
use crate::pfusers::document::{parsed, users, Doc};
use crate::pfusers::errors::{failure_text, Failure, PfError};
use crate::pfusers::operations::{check_failure, Check, Expectation};
use crate::text::{concat2, concat3, trim, trimmed};
use vstd::prelude::*;
use vstd::string::*;

verus! {

// ---------- Counting users ----------

/// How many users a document has.
pub open spec fn user_count(xml: Seq<char>) -> Result<nat, Failure> {
    match parsed(xml) {
        Err(f) => Err(f),
        Ok(ts) => match users(ts) {
            Err(f) => Err(f),
            Ok(list) => Ok(list.len()),
        },
    }
}

fn count_users(xml: &str) -> (res: Result<u64, PfError>)
    ensures
        match (res, user_count(xml@)) {
            (Ok(n), Ok(wanted)) => n == wanted,
            (Err(e), Err(f)) => e@ == f,
            _ => false,
        },
{
    let doc = match Doc::parse(xml) {
        Ok(doc) => doc,
        Err(e) => {
            return Err(e);
        },
    };
    match doc.list_users() {
        Ok(list) => Ok(list.len() as u64),
        Err(e) => Err(e),
    }
}

/// How many users the documents before and after a write have; or the first
/// failure to count them.
pub open spec fn user_counts(original: Seq<char>, fresh: Seq<char>) -> Result<(nat, nat), Failure> {
    match parsed(original) {
        Err(f) => Err(f),
        Ok(_) => match parsed(fresh) {
            Err(f) => Err(f),
            Ok(_) => match user_count(original) {
                Err(f) => Err(f),
                Ok(before) => match user_count(fresh) {
                    Err(f) => Err(f),
                    Ok(after) => Ok((before, after)),
                },
            },
        },
    }
}

fn count_both(original: &str, fresh: &str) -> (res: Result<(u64, u64), PfError>)
    ensures
        match (res, user_counts(original@, fresh@)) {
            (Ok((before, after)), Ok(wanted)) => wanted == (before as nat, after as nat),
            (Err(e), Err(f)) => e@ == f,
            _ => false,
        },
{
    match Doc::parse(original) {
        Ok(_) => {},
        Err(e) => {
            return Err(e);
        },
    }
    match Doc::parse(fresh) {
        Ok(_) => {},
        Err(e) => {
            return Err(e);
        },
    }
    let before = match count_users(original) {
        Ok(n) => n,
        Err(e) => {
            return Err(e);
        },
    };
    match count_users(fresh) {
        Ok(after) => Ok((before, after)),
        Err(e) => Err(e),
    }
}

/// What the router's count says: it has to be the number of users that were read
/// back.
pub open spec fn count_failure(stdout: Seq<char>, before: nat, after: nat) -> Option<Failure> {
    match parsed_signed(trimmed(stdout), i64::MAX as nat) {
        None => Some(Failure::NonNumericCount(trimmed(stdout))),
        Some(n) => if n != after {
            Some(Failure::CountMismatch(n, after as int, before as int))
        } else {
            None
        },
    }
}

/// Compares the count that the router printed with the users that were read back.
pub fn verify_with_pfsense_parser(stdout: &str, before: u64, after: u64) -> (res: Result<
    (),
    PfError,
>)
    ensures
        match (res, count_failure(stdout@, before as nat, after as nat)) {
            (Ok(_), None) => true,
            (Err(e), Some(f)) => e@ == f,
            _ => false,
        },
{
    let text = trim(stdout);
    match parse_i64(text.as_str()) {
        None => Err(PfError::NonNumericCount(text)),
        Some(n) => {
            if n < 0 || n as u64 != after {
                Err(PfError::CountMismatch(n, after, before))
            } else {
                Ok(())
            }
        },
    }
}

// ---------- The way through a write ----------

/// Where a write stands, as text.
pub enum Stage {
    Snapshot,
    Write,
    ReadBack,
    Count(nat, nat),
    RollBack(Seq<char>, Seq<char>),
    Done(Result<(), Seq<char>>),
}

/// Where a write stands.
pub enum Phase {
    /// The document is to be copied.
    Snapshot,
    /// The new document is to be written.
    Write,
    /// The document is to be read back.
    ReadBack,
    /// The router is to count the users: how many there were, and how many were
    /// read back.
    Count { before: u64, after: u64 },
    /// The snapshot is to be put back: the message where that succeeds, and the
    /// start of the message where it fails.
    RollBack { undone: String, stuck: String },
    /// Nothing is left to do.
    Done(Result<(), String>),
}

impl View for Phase {
    type V = Stage;

    open spec fn view(&self) -> Stage {
        match *self {
            Phase::Snapshot => Stage::Snapshot,
            Phase::Write => Stage::Write,
            Phase::ReadBack => Stage::ReadBack,
            Phase::Count { before, after } => Stage::Count(before as nat, after as nat),
            Phase::RollBack { undone, stuck } => Stage::RollBack(undone@, stuck@),
            Phase::Done(Ok(_)) => Stage::Done(Ok(())),
            Phase::Done(Err(text)) => Stage::Done(Err(text@)),
        }
    }
}

/// A write of the document: what it was, what it will be, the check, the path of
/// the snapshot, and where the write stands.
pub struct SafeWrite {
    pub original: String,
    pub new_xml: String,
    pub check: Check,
    pub snapshot: String,
    pub phase: Phase,
}

/// A write of the document, as text.
pub struct Writing {
    pub original: Seq<char>,
    pub new_xml: Seq<char>,
    pub check: Expectation,
    pub snapshot: Seq<char>,
    pub stage: Stage,
}

impl View for SafeWrite {
    type V = Writing;

    open spec fn view(&self) -> Writing {
        Writing {
            original: self.original@,
            new_xml: self.new_xml@,
            check: self.check@,
            snapshot: self.snapshot@,
            stage: self.phase@,
        }
    }
}

/// What is to be done on the router, as text: a command, and its input.
pub enum Task {
    Run(Seq<char>),
    Feed(Seq<char>, Seq<char>),
    Nothing,
}

/// What is to be done on the router.
pub enum Request {
    Run(String),
    /// A command, and its input.
    Feed(String, String),
    Nothing,
}

impl View for Request {
    type V = Task;

    open spec fn view(&self) -> Task {
        match *self {
            Request::Run(line) => Task::Run(line@),
            Request::Feed(line, input) => Task::Feed(line@, input@),
            Request::Nothing => Task::Nothing,
        }
    }
}

/// What came of it.
pub enum Reply {
    /// What the command printed.
    Output { stdout: String, stderr: String },
    /// The command could not be run.
    Failed(String),
}

/// What came of it, as text.
pub enum Answer {
    Output(Seq<char>, Seq<char>),
    Failed(Seq<char>),
}

impl View for Reply {
    type V = Answer;

    open spec fn view(&self) -> Answer {
        match *self {
            Reply::Output { stdout, stderr } => Answer::Output(stdout@, stderr@),
            Reply::Failed(message) => Answer::Failed(message@),
        }
    }
}

/// The next task of a write.
pub open spec fn task(w: Writing) -> Task {
    match w.stage {
        Stage::Snapshot => Task::Run(snapshot_line(w.snapshot)),
        Stage::Write => Task::Feed(WRITE_COMMAND@, w.new_xml),
        Stage::ReadBack => Task::Run(READ_COMMAND@),
        Stage::Count(_, _) => Task::Run(COUNT_COMMAND@),
        Stage::RollBack(_, _) => Task::Run(restore_line(w.snapshot)),
        Stage::Done(_) => Task::Nothing,
    }
}

/// What is wrong with the answer to a copy, if anything.
pub open spec fn copy_trouble(line: Seq<char>, answer: Answer) -> Option<Seq<char>> {
    match answer {
        Answer::Failed(message) => Some(message),
        Answer::Output(_, stderr) => if trimmed(stderr).len() > 0 {
            Some(failure_text(Failure::CommandReported(line, trimmed(stderr))))
        } else {
            None
        },
    }
}

/// What is wrong with the answer to the write, if anything.
pub open spec fn write_trouble(answer: Answer) -> Option<Seq<char>> {
    match answer {
        Answer::Failed(message) => Some("writing config.xml: "@ + message),
        Answer::Output(_, stderr) => if trimmed(stderr).len() > 0 {
            Some(failure_text(Failure::WriteReported(trimmed(stderr))))
        } else {
            None
        },
    }
}

/// What comes of the document that was read back: the users before and after, or
/// what is wrong with it.
pub open spec fn read_trouble(w: Writing, answer: Answer) -> Result<(nat, nat), Seq<char>> {
    match answer {
        Answer::Failed(message) => Err("reading config.xml: "@ + message),
        Answer::Output(stdout, stderr) => match read_outcome(stdout, stderr) {
            Err(f) => Err(failure_text(f)),
            Ok(fresh) => if check_failure(w.check, fresh) is Some {
                Err(failure_text(check_failure(w.check, fresh)->0))
            } else {
                match user_counts(w.original, fresh) {
                    Err(f) => Err(failure_text(f)),
                    Ok(counts) => Ok(counts),
                }
            },
        },
    }
}

/// What is wrong with the router's count, if anything.
pub open spec fn count_trouble(answer: Answer, before: nat, after: nat) -> Option<Seq<char>> {
    match answer {
        Answer::Failed(message) => Some(message),
        Answer::Output(stdout, _) => match count_failure(stdout, before, after) {
            Some(f) => Some(failure_text(f)),
            None => None,
        },
    }
}

/// The way back after what was written turned out wrong.
pub open spec fn undo(snapshot: Seq<char>, cause: Seq<char>) -> Stage {
    Stage::RollBack(
        "verification failed; rolled back from "@ + snapshot + ": "@ + cause,
        "verification failed: "@ + cause,
    )
}

/// Where a write stands after the answer to its task.
pub open spec fn next_stage(w: Writing, answer: Answer) -> Stage {
    match w.stage {
        Stage::Snapshot => match copy_trouble(snapshot_line(w.snapshot), answer) {
            Some(text) => Stage::Done(Err("creating config snapshot: "@ + text)),
            None => Stage::Write,
        },
        Stage::Write => match write_trouble(answer) {
            Some(text) => {
                let message = "write_with_safety: write failed (snapshot kept): "@ + text;
                Stage::RollBack(message, message)
            },
            None => Stage::ReadBack,
        },
        Stage::ReadBack => match read_trouble(w, answer) {
            Err(text) => undo(w.snapshot, text),
            Ok((before, after)) => Stage::Count(before, after),
        },
        Stage::Count(before, after) => match count_trouble(answer, before, after) {
            Some(text) => undo(w.snapshot, text),
            None => Stage::Done(Ok(())),
        },
        Stage::RollBack(undone, stuck) => match copy_trouble(restore_line(w.snapshot), answer) {
            Some(text) => Stage::Done(
                Err(
                    stuck + "\nROLLBACK ALSO FAILED: "@ + text + "\nSnapshot still at "@
                        + w.snapshot + " — manual recovery required"@,
                ),
            ),
            None => Stage::Done(Err(undone)),
        },
        Stage::Done(_) => w.stage,
    }
}

fn check_copy(line: &str, reply: &Reply) -> (res: Option<String>)
    ensures
        match (res, copy_trouble(line@, reply@)) {
            (Some(text), Some(wanted)) => text@ == wanted,
            (None, None) => true,
            _ => false,
        },
{
    match reply {
        Reply::Failed(message) => Some(message.clone()),
        Reply::Output { stderr, .. } => {
            match exec_check(line, stderr.as_str()) {
                Ok(_) => None,
                Err(e) => Some(e.message()),
            }
        },
    }
}

fn check_write(reply: &Reply) -> (res: Option<String>)
    ensures
        match (res, write_trouble(reply@)) {
            (Some(text), Some(wanted)) => text@ == wanted,
            (None, None) => true,
            _ => false,
        },
{
    match reply {
        Reply::Failed(message) => Some(concat2("writing config.xml: ", message.as_str())),
        Reply::Output { stderr, .. } => {
            match write_config_xml(stderr.as_str()) {
                Ok(_) => None,
                Err(e) => Some(e.message()),
            }
        },
    }
}

fn undo_phase(snapshot: &str, cause: &str) -> (out: Phase)
    ensures
        out@ == undo(snapshot@, cause@),
{
    let mut undone = concat3("verification failed; rolled back from ", snapshot, ": ");
    undone.append(cause);
    Phase::RollBack { undone, stuck: concat2("verification failed: ", cause) }
}

impl SafeWrite {
    /// A write that has not begun.
    pub fn new(original: String, new_xml: String, check: Check, snapshot: String) -> (out: Self)
        ensures
            out@ == (Writing {
                original: original@,
                new_xml: new_xml@,
                check: check@,
                snapshot: snapshot@,
                stage: Stage::Snapshot,
            }),
    {
        SafeWrite { original, new_xml, check, snapshot, phase: Phase::Snapshot }
    }

    /// What is to be done next.
    pub fn request(&self) -> (out: Request)
        ensures
            out@ == task(self@),
    {
        match &self.phase {
            Phase::Snapshot => Request::Run(snapshot_command(self.snapshot.as_str())),
            Phase::Write => Request::Feed(WRITE_COMMAND.to_owned(), self.new_xml.clone()),
            Phase::ReadBack => Request::Run(READ_COMMAND.to_owned()),
            Phase::Count { .. } => Request::Run(COUNT_COMMAND.to_owned()),
            Phase::RollBack { .. } => Request::Run(restore_command(self.snapshot.as_str())),
            Phase::Done(_) => Request::Nothing,
        }
    }

    fn check_read(&self, reply: Reply) -> (res: Result<(u64, u64), String>)
        ensures
            match (res, read_trouble(self@, reply@)) {
                (Ok((before, after)), Ok(wanted)) => wanted == (before as nat, after as nat),
                (Err(text), Err(wanted)) => text@ == wanted,
                _ => false,
            },
    {
        match reply {
            Reply::Failed(message) => Err(concat2("reading config.xml: ", message.as_str())),
            Reply::Output { stdout, stderr } => {
                let fresh = match read_config_xml(stdout, stderr.as_str()) {
                    Ok(fresh) => fresh,
                    Err(e) => {
                        return Err(e.message());
                    },
                };
                match self.check.run(fresh.as_str()) {
                    Ok(_) => {},
                    Err(e) => {
                        return Err(e.message());
                    },
                }
                match count_both(self.original.as_str(), fresh.as_str()) {
                    Ok(counts) => Ok(counts),
                    Err(e) => Err(e.message()),
                }
            },
        }
    }

    fn next_phase(&self, reply: Reply) -> (out: Phase)
        ensures
            out@ == next_stage(self@, reply@),
    {
        match &self.phase {
            Phase::Snapshot => {
                let line = snapshot_command(self.snapshot.as_str());
                match check_copy(line.as_str(), &reply) {
                    Some(text) => Phase::Done(
                        Err(concat2("creating config snapshot: ", text.as_str())),
                    ),
                    None => Phase::Write,
                }
            },
            Phase::Write => {
                match check_write(&reply) {
                    Some(text) => {
                        let message = concat2(
                            "write_with_safety: write failed (snapshot kept): ",
                            text.as_str(),
                        );
                        Phase::RollBack { undone: message.clone(), stuck: message }
                    },
                    None => Phase::ReadBack,
                }
            },
            Phase::ReadBack => {
                match self.check_read(reply) {
                    Err(text) => undo_phase(self.snapshot.as_str(), text.as_str()),
                    Ok((before, after)) => Phase::Count { before, after },
                }
            },
            Phase::Count { before, after } => {
                match reply {
                    Reply::Failed(message) => {
                        undo_phase(self.snapshot.as_str(), message.as_str())
                    },
                    Reply::Output { stdout, .. } => {
                        match verify_with_pfsense_parser(stdout.as_str(), *before, *after) {
                            Ok(_) => Phase::Done(Ok(())),
                            Err(e) => undo_phase(self.snapshot.as_str(), e.message().as_str()),
                        }
                    },
                }
            },
            Phase::RollBack { undone, stuck } => {
                let line = restore_command(self.snapshot.as_str());
                match check_copy(line.as_str(), &reply) {
                    Some(text) => {
                        let mut message = stuck.clone();
                        message.append("\nROLLBACK ALSO FAILED: ");
                        message.append(text.as_str());
                        message.append("\nSnapshot still at ");
                        message.append(self.snapshot.as_str());
                        message.append(" — manual recovery required");
                        Phase::Done(Err(message))
                    },
                    None => Phase::Done(Err(undone.clone())),
                }
            },
            Phase::Done(Ok(_)) => Phase::Done(Ok(())),
            Phase::Done(Err(text)) => Phase::Done(Err(text.clone())),
        }
    }

    /// Takes in what came of the request.
    pub fn step(&mut self, reply: Reply)
        ensures
            final(self)@ == (Writing { stage: next_stage(old(self)@, reply@), ..old(self)@ }),
    {
        let phase = self.next_phase(reply);
        self.phase = phase;
    }
}

// ---------- Laws ----------

/// How many answers a write may still wait for.
pub open spec fn steps_left(stage: Stage) -> nat {
    match stage {
        Stage::Snapshot => 5,
        Stage::Write => 4,
        Stage::ReadBack => 3,
        Stage::Count(_, _) => 2,
        Stage::RollBack(_, _) => 1,
        Stage::Done(_) => 0,
    }
}

/// Each answer brings a write closer to its end.
pub proof fn writes_end(w: Writing, answer: Answer)
    requires
        !(w.stage is Done),
    ensures
        steps_left(next_stage(w, answer)) < steps_left(w.stage),
{
}

/// Nothing is written before the document has been copied: the write follows the
/// snapshot, and only where the copy succeeded.
pub proof fn snapshot_comes_first(w: Writing, answer: Answer)
    requires
        next_stage(w, answer) is Write,
    ensures
        w.stage is Snapshot,
        task(w) == Task::Run(snapshot_line(w.snapshot)),
        copy_trouble(snapshot_line(w.snapshot), answer) is None,
{
}

/// Once the document may have been written, every failure leads to the snapshot
/// being put back before the write ends.
pub proof fn failures_are_undone(w: Writing, answer: Answer)
    requires
        w.stage is Write || w.stage is ReadBack || w.stage is Count,
    ensures
        next_stage(w, answer) is Done ==> next_stage(w, answer) == Stage::Done(
            Ok::<(), Seq<char>>(()),
        ),
        next_stage(w, answer) is RollBack ==> task(
            Writing { stage: next_stage(w, answer), ..w },
        ) == Task::Run(restore_line(w.snapshot)),
{
}

/// A write succeeds only where the document that was read back passed the check
/// and the router counts as many users in it.
pub proof fn success_is_checked(
    w: Writing,
    stdout: Seq<char>,
    stderr: Seq<char>,
    count: Answer,
)
    requires
        w.stage is ReadBack,
        ({
            let counting = next_stage(w, Answer::Output(stdout, stderr));
            &&& counting is Count
            &&& next_stage(Writing { stage: counting, ..w }, count) == Stage::Done(
                Ok::<(), Seq<char>>(()),
            )
        }),
    ensures
        check_failure(w.check, stdout) is None,
        user_count(stdout) is Ok,
        count matches Answer::Output(printed, _) && parsed_signed(
            trimmed(printed),
            i64::MAX as nat,
        ) == Some(user_count(stdout)->Ok_0 as int),
{
}

/// A command ran and did not complain.
pub open spec fn is_silent(answer: Answer) -> bool {
    answer is Output && trimmed(answer->Output_1).len() == 0
}

/// Where nothing goes wrong, the document is copied, written, read back and counted, in
/// this order, and what is written is the new document.
pub proof fn writes_go_in_order(w: Writing, answer: Answer)
    ensures
        ({
            let next = next_stage(w, answer);
            match w.stage {
                Stage::Snapshot => {
                    &&& task(w) == Task::Run("/bin/cp /cf/conf/config.xml "@ + w.snapshot)
                    &&& next is Write <==> is_silent(answer)
                    &&& next !is Write ==> next is Done && next->Done_0 is Err
                },
                Stage::Write => {
                    &&& task(w) is Feed && task(w)->Feed_1 == w.new_xml
                    &&& next is ReadBack <==> is_silent(answer)
                    &&& next !is ReadBack ==> next is RollBack
                },
                Stage::ReadBack => {
                    &&& task(w) == Task::Run("/bin/cat /cf/conf/config.xml"@)
                    &&& next is Count <==> is_silent(answer) && check_failure(
                        w.check,
                        answer->Output_0,
                    ) is None && user_count(w.original) is Ok && user_count(answer->Output_0) is Ok
                    &&& next !is Count ==> next is RollBack
                },
                Stage::Count(_, after) => {
                    &&& next is Done <==> answer is Output && parsed_signed(
                        trimmed(answer->Output_0),
                        i64::MAX as nat,
                    ) == Some(after as int)
                    &&& next !is Done ==> next is RollBack
                },
                Stage::RollBack(_, _) => {
                    &&& task(w) == Task::Run("/bin/cp "@ + w.snapshot + " /cf/conf/config.xml"@)
                    &&& next is Done && next->Done_0 is Err
                },
                Stage::Done(_) => task(w) is Nothing && next == w.stage,
            }
        }),
{
}

/// Users are counted in the document as it was and in the document that was read back.
pub proof fn both_documents_are_counted(w: Writing, stdout: Seq<char>, stderr: Seq<char>)
    requires
        w.stage is ReadBack,
        next_stage(w, Answer::Output(stdout, stderr)) is Count,
    ensures
        next_stage(w, Answer::Output(stdout, stderr)) == Stage::Count(
            user_count(w.original)->Ok_0,
            user_count(stdout)->Ok_0,
        ),
{
}


} // verus!
