//! Changes of the configuration file: several events of one edit count as one.

use vstd::prelude::*;

verus! {

/// Nanoseconds within which events are taken for one edit.
pub const COALESCE_NANOS: u128 = 400000000;

/// What happened to a file.
#[derive(Debug, Clone, Copy, PartialEq, Eq)]
pub enum ChangeKind {
    /// Its contents changed.
    Data,
    /// It changed in some way that is not told.
    Any,
    /// It was renamed, or another file was renamed to it.
    Name,
    /// It was created.
    Create,
    /// Anything else.
    Other,
}

/// A change after which the file is read again.
pub open spec fn is_edit(kind: ChangeKind) -> bool {
    !(kind is Other)
}

/// When an edit was last reported, in nanoseconds.
#[derive(Debug, Clone, Copy, PartialEq, Eq)]
pub struct Coalescer {
    pub last_fired: Option<u128>,
}

/// Nanoseconds from `then` to `now`; none where time has not moved on.
pub open spec fn since(then: u128, now: u128) -> nat {
    if now < then {
        0
    } else {
        (now - then) as nat
    }
}

/// An event is reported: it is an edit of the file, and not part of the edit that
/// was reported last.
pub open spec fn fires(c: Coalescer, is_target: bool, kind: ChangeKind, now: u128) -> bool {
    &&& is_target
    &&& is_edit(kind)
    &&& c.last_fired matches Some(then) ==> since(then, now) >= COALESCE_NANOS
}

impl Coalescer {
    pub fn new() -> (out: Coalescer)
        ensures
            out.last_fired is None,
    {
        Coalescer { last_fired: None }
    }

    /// Takes in an event, and says whether it is to be reported.
    pub fn observe(&mut self, is_target: bool, kind: ChangeKind, now: u128) -> (fire: bool)
        ensures
            fire == fires(*old(self), is_target, kind, now),
            final(self).last_fired == if fire {
                Some(now)
            } else {
                old(self).last_fired
            },
    {
        if !is_target {
            return false;
        }
        match kind {
            ChangeKind::Other => {
                return false;
            },
            _ => {},
        }
        if let Some(then) = self.last_fired {
            if now < then || now - then < COALESCE_NANOS {
                return false;
            }
        }
        self.last_fired = Some(now);
        true
    }
}

/// Two reports are never closer than the span of one edit.
pub proof fn reports_keep_apart(
    c: Coalescer,
    first: u128,
    kind: ChangeKind,
    second: u128,
    later: ChangeKind,
)
    requires
        fires(c, true, kind, first),
        fires(Coalescer { last_fired: Some(first) }, true, later, second),
    ensures
        second >= first + COALESCE_NANOS,
{
}

/// Every edit of the file is reported that comes first, or four tenths of a second or
/// more after the last one that was; nothing else is.
pub proof fn late_edits_are_reported(c: Coalescer, kind: ChangeKind, now: u128)
    ensures
        !fires(c, false, kind, now),
        kind == ChangeKind::Other ==> !fires(c, true, kind, now),
        kind != ChangeKind::Other && c.last_fired is None ==> fires(c, true, kind, now),
        kind != ChangeKind::Other && c.last_fired is Some ==> (fires(c, true, kind, now) <==> now
            - c.last_fired->0 >= 400_000_000),
{
}


} // verus!
