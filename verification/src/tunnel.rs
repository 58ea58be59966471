//! The tunnel: keeping a session up, passing bytes both ways, and the switch.

use crate::hostkey::{accepts, accepts_key, fingerprint, fingerprint_of};
use crate::text::opt_text;
use vstd::prelude::*;
use vstd::string::*;

verus! {

/// Where the tunnel stands.
#[derive(Clone, Debug, PartialEq, Eq)]
pub enum Status {
    Connecting,
    Connected,
    Disconnected(String),
    Disabled,
}

/// Where the tunnel stands, as text.
pub enum Standing {
    Connecting,
    Connected,
    Disconnected(Seq<char>),
    Disabled,
}

impl View for Status {
    type V = Standing;

    open spec fn view(&self) -> Standing {
        match *self {
            Status::Connecting => Standing::Connecting,
            Status::Connected => Standing::Connected,
            Status::Disconnected(text) => Standing::Disconnected(text@),
            Status::Disabled => Standing::Disabled,
        }
    }
}

// ---------- The switch ----------

/// The switch of the tunnel.
#[derive(Clone, Copy, Debug, PartialEq, Eq)]
pub struct Control {
    enabled: bool,
}

impl Control {
    /// The tunnel is to run.
    pub closed spec fn on(&self) -> bool {
        self.enabled
    }

    pub fn new(enabled: bool) -> (out: Control)
        ensures
            out.on() == enabled,
    {
        Control { enabled }
    }

    /// Turns the tunnel on or off, and says whether that changed anything: nobody
    /// is woken where it did not.
    pub fn set_enabled(&mut self, on: bool) -> (changed: bool)
        ensures
            final(self).on() == on,
            changed == (old(self).on() != on),
    {
        if self.enabled != on {
            self.enabled = on;
            true
        } else {
            false
        }
    }

    pub fn is_enabled(&self) -> (res: bool)
        ensures
            res == self.on(),
    {
        self.enabled
    }
}

// ---------- Host keys ----------

/// Judges the key that a server presents.
#[derive(Clone, Debug)]
pub struct ClientHandler {
    /// The fingerprint that is recorded, if any.
    pub expected: Option<String>,
    /// The fingerprint that the server presented.
    pub observed: Option<String>,
}

impl ClientHandler {
    /// Keeps the fingerprint of a key, given in its wire form, and says whether the
    /// key is accepted: where none is recorded, or where it is the recorded one.
    pub fn check_server_key(&mut self, key: &[u8]) -> (res: bool)
        ensures
            opt_text(final(self).observed) == fingerprint(key@),
            final(self).expected == old(self).expected,
            res == accepts(opt_text(old(self).expected), fingerprint(key@)),
    {
        let observed = fingerprint_of(key);
        let res = accepts_key(&self.expected, &observed);
        self.observed = observed;
        res
    }
}

// ---------- A session ----------

/// How a session is kept alive: seconds until it is given up, seconds between
/// signs of life, and how many of them may go unanswered.
pub struct Timeouts {
    pub inactivity_secs: u64,
    pub keepalive_secs: u64,
    pub keepalive_max: usize,
}

/// The timeouts of a session.
pub fn session_timeouts(keepalive_secs: u64) -> (out: Timeouts)
    requires
        keepalive_secs <= u64::MAX / 3,
    ensures
        out.inactivity_secs == 3 * keepalive_secs,
        out.keepalive_secs == keepalive_secs,
        out.keepalive_max == 3,
{
    Timeouts { inactivity_secs: keepalive_secs * 3, keepalive_secs, keepalive_max: 3 }
}

/// Why a session is ended.
#[derive(Clone, Copy, Debug, PartialEq, Eq)]
pub enum StopReason {
    /// The connection is closed.
    SessionClosed,
    /// The tunnel was turned off.
    TurnedOff,
}

/// Why a session is ended that was looked at, if it is.
pub open spec fn stop_of(on_tick: bool, closed: bool, enabled: bool) -> Option<StopReason> {
    if on_tick && closed {
        Some(StopReason::SessionClosed)
    } else if !enabled {
        Some(StopReason::TurnedOff)
    } else {
        None
    }
}

/// Looks at a session: once in a while, or because the switch was used.
pub fn watchdog(on_tick: bool, closed: bool, enabled: bool) -> (res: Option<StopReason>)
    ensures
        res == stop_of(on_tick, closed, enabled),
        res == if on_tick && closed {
            Some(StopReason::SessionClosed)
        } else if !enabled {
            Some(StopReason::TurnedOff)
        } else {
            None
        },
{
    if on_tick && closed {
        Some(StopReason::SessionClosed)
    } else if !enabled {
        Some(StopReason::TurnedOff)
    } else {
        None
    }
}

// ---------- Reconnecting ----------

/// Nanoseconds in a second.
pub const NANOS: u128 = 1000000000;

/// How long to wait before the next attempt.
pub struct Reconnect {
    pub initial_secs: u64,
    pub max_secs: u64,
    /// The wait before the next attempt, in nanoseconds.
    pub backoff: u128,
}

/// What is done next.
#[derive(Clone, Copy, Debug, PartialEq, Eq)]
pub enum Next {
    /// Wait until the tunnel is turned on.
    WaitForEnable,
    /// Open a session.
    RunSession,
    /// Wait so many nanoseconds, or until the switch is used.
    Sleep(u128),
}

/// What is reported, and what is done next.
pub struct Action {
    pub status: Option<Status>,
    pub next: Next,
}

/// A status that may be reported, as text.
pub open spec fn standing(status: Option<Status>) -> Option<Standing> {
    match status {
        Some(s) => Some(s@),
        None => None,
    }
}

/// The wait before the next attempt, once the one before it is over.
pub open spec fn wait_after(multiplied: int, longest: int) -> int {
    if multiplied < longest {
        multiplied
    } else {
        longest
    }
}

/// The wait once a session has ended: after a clean end it starts over.
pub open spec fn wait_at_end(clean: bool, initial: int, wait: int) -> int {
    if clean {
        initial
    } else {
        wait
    }
}

/// What is reported when a session has ended.
pub open spec fn report_of_end(error: Option<Seq<char>>, enabled: bool) -> Standing {
    if enabled {
        Standing::Disconnected(
            match error {
                Some(text) => text,
                None => "session ended"@,
            },
        )
    } else {
        Standing::Disabled
    }
}

/// What is done when a session has ended, where the next wait is `backoff`.
pub open spec fn next_after_end(enabled: bool, backoff: u128) -> Next {
    if enabled {
        Next::Sleep(backoff)
    } else {
        Next::WaitForEnable
    }
}

/// What is reported where nothing runs.
pub open spec fn report_of_start(enabled: bool) -> Standing {
    if enabled {
        Standing::Connecting
    } else {
        Standing::Disabled
    }
}

/// What is done where nothing runs.
pub open spec fn next_of_start(enabled: bool) -> Next {
    if enabled {
        Next::RunSession
    } else {
        Next::WaitForEnable
    }
}

impl Reconnect {
    /// The first wait, in nanoseconds.
    pub open spec fn initial(&self) -> int {
        self.initial_secs * NANOS as int
    }

    /// The longest wait, in nanoseconds.
    pub open spec fn longest(&self) -> int {
        self.max_secs * NANOS as int
    }

    /// The wait is the first one, or within the longest.
    pub open spec fn is_bounded(&self) -> bool {
        self.backoff == self.initial() || self.backoff <= self.longest()
    }

    pub fn new(initial_secs: u64, max_secs: u64) -> (out: Reconnect)
        ensures
            out.initial_secs == initial_secs,
            out.max_secs == max_secs,
            out.backoff == out.initial(),
            out.is_bounded(),
    {
        assert(initial_secs * NANOS <= u128::MAX) by (nonlinear_arith)
            requires
                initial_secs <= u64::MAX,
                NANOS == 1000000000,
        ;
        Reconnect { initial_secs, max_secs, backoff: initial_secs as u128 * NANOS }
    }

    /// The wait starts over.
    fn reset(&mut self)
        ensures
            final(self).initial_secs == old(self).initial_secs,
            final(self).max_secs == old(self).max_secs,
            final(self).backoff == old(self).initial(),
    {
        let fresh = Reconnect::new(self.initial_secs, self.max_secs);
        self.backoff = fresh.backoff;
    }

    /// What is done where nothing runs: a session, if the tunnel is on.
    pub fn begin(&self, enabled: bool) -> (out: Action)
        ensures
            standing(out.status) == Some(report_of_start(enabled)),
            out.next == next_of_start(enabled),
            enabled ==> standing(out.status) == Some(Standing::Connecting) && out.next
                == Next::RunSession,
            !enabled ==> standing(out.status) == Some(Standing::Disabled) && out.next
                == Next::WaitForEnable,
    {
        if enabled {
            Action { status: Some(Status::Connecting), next: Next::RunSession }
        } else {
            Action { status: Some(Status::Disabled), next: Next::WaitForEnable }
        }
    }

    /// The tunnel was turned on again: the wait starts over.
    pub fn enabled_again(&mut self)
        ensures
            final(self).backoff == old(self).initial(),
            final(self).initial_secs == old(self).initial_secs,
            final(self).max_secs == old(self).max_secs,
            final(self).is_bounded(),
    {
        self.reset();
    }

    /// A session has ended, by itself or with an error. After a clean end the wait
    /// starts over. Where the tunnel is still on, it is reported as disconnected
    /// and opened again after the wait.
    pub fn session_ended(&mut self, error: Option<String>, enabled: bool) -> (out: Action)
        ensures
            final(self).initial_secs == old(self).initial_secs,
            final(self).max_secs == old(self).max_secs,
            final(self).backoff == if error is None {
                old(self).initial()
            } else {
                old(self).backoff as int
            },
            final(self).backoff == wait_at_end(
                error is None,
                old(self).initial(),
                old(self).backoff as int,
            ),
            old(self).is_bounded() ==> final(self).is_bounded(),
            enabled ==> standing(out.status) == Some(
                Standing::Disconnected(
                    match error {
                        Some(text) => text@,
                        None => "session ended"@,
                    },
                ),
            ) && out.next == Next::Sleep(final(self).backoff),
            !enabled ==> standing(out.status) == Some(Standing::Disabled) && out.next
                == Next::WaitForEnable,
            standing(out.status) == Some(report_of_end(opt_text(error), enabled)),
            out.next == next_after_end(enabled, final(self).backoff),
    {
        let message = match error {
            Some(text) => text,
            None => {
                self.reset();
                "session ended".to_owned()
            },
        };
        if enabled {
            Action { status: Some(Status::Disconnected(message)), next: Next::Sleep(self.backoff) }
        } else {
            Action { status: Some(Status::Disabled), next: Next::WaitForEnable }
        }
    }

    /// The wait is over. The next one is the given multiple of it, but not more
    /// than the longest.
    pub fn slept(&mut self, multiplied: u128)
        ensures
            final(self).initial_secs == old(self).initial_secs,
            final(self).max_secs == old(self).max_secs,
            final(self).backoff == if multiplied < old(self).longest() {
                multiplied as int
            } else {
                old(self).longest()
            },
            final(self).backoff == wait_after(multiplied as int, old(self).longest()),
            final(self).is_bounded(),
    {
        assert(self.max_secs * NANOS <= u128::MAX) by (nonlinear_arith)
            requires
                self.max_secs <= u64::MAX,
                NANOS == 1000000000,
        ;
        let longest: u128 = self.max_secs as u128 * NANOS;
        self.backoff = if multiplied < longest {
            multiplied
        } else {
            longest
        };
    }
}

// ---------- Passing bytes ----------

/// What happened at one end of a bridge.
#[derive(Clone, Copy, Debug, PartialEq, Eq)]
pub enum BridgeEvent {
    /// The client sent its last byte.
    ClientEnd,
    /// The client cannot be read any more.
    ClientError,
    /// Bytes of the client were passed on.
    ClientData,
    /// Bytes of the client could not be passed on.
    ChannelBroken,
    /// Bytes of the server were passed on.
    ServerData,
    /// Bytes of the server could not be passed on.
    ClientBroken,
    /// The server sent its last byte.
    ServerEnd,
    /// Something else came through the channel.
    Other,
}

/// What is told to the ends of a bridge.
#[derive(Clone, Copy, Debug, PartialEq, Eq)]
pub struct Signals {
    /// The server is told that no more bytes will come.
    pub end_to_server: bool,
    /// The client is told that no more bytes will come.
    pub end_to_client: bool,
}

/// Which ways are closed.
#[derive(Clone, Copy, Debug, PartialEq, Eq)]
pub struct Bridge {
    /// No more bytes go from the client to the server.
    pub client_done: bool,
    /// No more bytes go from the server to the client.
    pub server_done: bool,
}

/// Which ways are closed after an event.
pub open spec fn after_event(b: Bridge, event: BridgeEvent) -> Bridge {
    match event {
        BridgeEvent::ClientEnd | BridgeEvent::ClientError => Bridge { client_done: true, ..b },
        BridgeEvent::ServerEnd => Bridge { server_done: true, ..b },
        BridgeEvent::ChannelBroken | BridgeEvent::ClientBroken => Bridge {
            client_done: true,
            server_done: true,
        },
        BridgeEvent::ClientData | BridgeEvent::ServerData | BridgeEvent::Other => b,
    }
}

/// What is told to the ends after an event.
pub open spec fn signals_for(event: BridgeEvent) -> Signals {
    Signals {
        end_to_server: event is ClientEnd || event is ClientError,
        end_to_client: event is ServerEnd,
    }
}

impl Bridge {
    pub fn new() -> (out: Bridge)
        ensures
            out == (Bridge { client_done: false, server_done: false }),
    {
        Bridge { client_done: false, server_done: false }
    }

    /// Whether both ways are closed.
    pub fn is_over(&self) -> (res: bool)
        ensures
            res == (self.client_done && self.server_done),
    {
        self.client_done && self.server_done
    }

    /// Takes in an event, and says what the ends are told.
    pub fn observe(&mut self, event: BridgeEvent) -> (out: Signals)
        ensures
            *final(self) == after_event(*old(self), event),
            out == signals_for(event),
    {
        let none = Signals { end_to_server: false, end_to_client: false };
        match event {
            BridgeEvent::ClientEnd | BridgeEvent::ClientError => {
                self.client_done = true;
                Signals { end_to_server: true, end_to_client: false }
            },
            BridgeEvent::ServerEnd => {
                self.server_done = true;
                Signals { end_to_server: false, end_to_client: true }
            },
            BridgeEvent::ChannelBroken | BridgeEvent::ClientBroken => {
                self.client_done = true;
                self.server_done = true;
                none
            },
            BridgeEvent::ClientData | BridgeEvent::ServerData | BridgeEvent::Other => none,
        }
    }
}

// ---------- Laws ----------

/// The end of one way leaves the other as it was: what is under way in the other
/// direction is still passed on.
pub proof fn ways_close_one_by_one(b: Bridge)
    ensures
        after_event(b, BridgeEvent::ClientEnd).server_done == b.server_done,
        after_event(b, BridgeEvent::ClientError).server_done == b.server_done,
        after_event(b, BridgeEvent::ServerEnd).client_done == b.client_done,
{
}

/// Which ways are closed after a run of events.
pub open spec fn after_events(b: Bridge, events: Seq<BridgeEvent>) -> Bridge
    decreases events.len(),
{
    if events.len() == 0 {
        b
    } else {
        after_event(after_events(b, events.drop_last()), events.last())
    }
}

/// The client will send no more, or what was sent could not be passed on.
pub open spec fn ends_client(event: BridgeEvent) -> bool {
    ||| event == BridgeEvent::ClientEnd
    ||| event == BridgeEvent::ClientError
    ||| event == BridgeEvent::ChannelBroken
    ||| event == BridgeEvent::ClientBroken
}

/// The server will send no more, or what was sent could not be passed on.
pub open spec fn ends_server(event: BridgeEvent) -> bool {
    ||| event == BridgeEvent::ServerEnd
    ||| event == BridgeEvent::ChannelBroken
    ||| event == BridgeEvent::ClientBroken
}

/// Bytes that were passed on, in either direction, and other messages of the channel
/// leave both ways as they were, and tell nobody anything.
pub proof fn passed_bytes_close_nothing(b: Bridge, event: BridgeEvent)
    requires
        event == BridgeEvent::ClientData || event == BridgeEvent::ServerData || event
            == BridgeEvent::Other,
    ensures
        after_event(b, event) == b,
        !signals_for(event).end_to_server,
        !signals_for(event).end_to_client,
{
}

/// However many events there were, and in whatever order: a way is closed once the
/// side it comes from has ended or failed, or bytes could not be passed on, and not
/// before.
pub proof fn ways_are_closed_by_their_ends(b: Bridge, events: Seq<BridgeEvent>)
    ensures
        after_events(b, events).client_done <==> b.client_done || exists|i: int|
            0 <= i < events.len() && ends_client(#[trigger] events[i]),
        after_events(b, events).server_done <==> b.server_done || exists|i: int|
            0 <= i < events.len() && ends_server(#[trigger] events[i]),
    decreases events.len(),
{
    if events.len() > 0 {
        let front = events.drop_last();
        let last = events.last();
        let k = events.len() - 1;
        ways_are_closed_by_their_ends(b, front);
        assert(events[k] == last);
        if exists|i: int| 0 <= i < front.len() && ends_client(#[trigger] front[i]) {
            let i = choose|i: int| 0 <= i < front.len() && ends_client(#[trigger] front[i]);
            assert(ends_client(events[i]));
        }
        if exists|i: int| 0 <= i < front.len() && ends_server(#[trigger] front[i]) {
            let i = choose|i: int| 0 <= i < front.len() && ends_server(#[trigger] front[i]);
            assert(ends_server(events[i]));
        }
        if exists|i: int| 0 <= i < events.len() && ends_client(#[trigger] events[i]) {
            let i = choose|i: int| 0 <= i < events.len() && ends_client(#[trigger] events[i]);
            if i < k {
                assert(ends_client(front[i]));
            }
        }
        if exists|i: int| 0 <= i < events.len() && ends_server(#[trigger] events[i]) {
            let i = choose|i: int| 0 <= i < events.len() && ends_server(#[trigger] events[i]);
            if i < k {
                assert(ends_server(front[i]));
            }
        }
    }
}

/// The server is told of the end of the client, and the client of the end of the
/// server; nothing else is told, and who is told that no more will come is told so
/// only of a way that is closed.
pub proof fn ends_are_told(b: Bridge, event: BridgeEvent)
    ensures
        signals_for(event).end_to_server <==> event == BridgeEvent::ClientEnd || event
            == BridgeEvent::ClientError,
        signals_for(event).end_to_client <==> event == BridgeEvent::ServerEnd,
        signals_for(event).end_to_server ==> after_event(b, event).client_done,
        signals_for(event).end_to_client ==> after_event(b, event).server_done,
{
}

/// The next wait is the multiple of the last one or the longest, whichever is less:
/// waits do not grow beyond the longest, and one that is multiplied does not shrink.
pub proof fn waits_grow_up_to_the_longest(wait: int, multiplied: int, longest: int)
    ensures
        wait_after(multiplied, longest) <= multiplied,
        wait_after(multiplied, longest) <= longest,
        wait_after(multiplied, longest) == multiplied || wait_after(multiplied, longest) == longest,
        wait <= multiplied && wait <= longest ==> wait <= wait_after(multiplied, longest),
{
}

/// A tunnel that is on is opened again after exactly the wait, whatever ended the
/// session, and the error is reported as it is; one that is off is left off.
pub proof fn sessions_are_opened_again(error: Option<Seq<char>>, backoff: u128)
    ensures
        next_after_end(true, backoff) == Next::Sleep(backoff),
        next_after_end(false, backoff) == Next::WaitForEnable,
        report_of_end(error, false) == Standing::Disabled,
        report_of_end(error, true) is Disconnected,
        error matches Some(text) ==> report_of_end(error, true) == Standing::Disconnected(text),
{
}

/// A way that is closed stays closed.
pub proof fn ways_stay_closed(b: Bridge, event: BridgeEvent)
    ensures
        b.client_done ==> after_event(b, event).client_done,
        b.server_done ==> after_event(b, event).server_done,
{
}

/// A session goes on exactly as long as the tunnel is on and no look at the right time
/// finds it closed; where both hold, that it is closed comes first.
pub proof fn sessions_are_stopped(on_tick: bool, closed: bool, enabled: bool)
    ensures
        stop_of(on_tick, closed, enabled) is None <==> enabled && !(on_tick && closed),
        stop_of(true, true, enabled) == Some(StopReason::SessionClosed),
        stop_of(false, closed, false) == Some(StopReason::TurnedOff),
        stop_of(on_tick, false, false) == Some(StopReason::TurnedOff),
{
}

/// A session is opened exactly where the tunnel is on, and is then reported as being
/// opened; otherwise nothing is done until it is turned on.
pub proof fn sessions_are_opened_when_on(enabled: bool)
    ensures
        next_of_start(enabled) == Next::RunSession <==> enabled,
        next_of_start(enabled) == Next::WaitForEnable <==> !enabled,
        report_of_start(enabled) is Connecting <==> enabled,
        report_of_start(enabled) is Disabled <==> !enabled,
{
}


/// As long as sessions fail, the waits between them grow: an error leaves the wait as it
/// was, and the next one is not shorter. A session that ended cleanly starts over.
pub proof fn failures_do_not_shorten_the_wait(initial: int, wait: int, multiplied: int, longest: int)
    requires
        wait <= multiplied,
        wait <= longest,
    ensures
        wait_at_end(false, initial, wait) == wait,
        wait_after(multiplied, longest) >= wait_at_end(false, initial, wait),
        wait_at_end(true, initial, wait) == initial,
{
}


} // verus!
