//! When the service runs adb.
//!
//! One rule runs through the whole service: never start the adb server just to
//! ask a question. Asking adb which devices there are silently starts a server
//! that then stays resident, and the service is supposed to cost nothing while
//! no phone is plugged in. So adb is only run once udev has said there is
//! something to talk to.

use vstd::prelude::*;

verus! {

/// How often finished windows are collected, in seconds.
///
/// A closed window should disappear from the panel promptly, but this runs
/// forever, so it is a compromise rather than a tight loop.
pub const REAP_INTERVAL: u64 = 2;

/// After udev reports a device, adb needs a moment before it lists it: how long
/// to wait, in milliseconds.
pub const SETTLE: u64 = 600;

/// What the service is waiting for.
#[derive(Debug, Clone, Copy, PartialEq, Eq, Structural)]
pub enum Phase {
    Idle,
    /// The adb server, for a phone that was there before the service.
    FirstServer,
    /// The adb server, for a phone that was just plugged in.
    Server,
    /// adb to notice a phone that was just plugged in.
    Settling,
}

/// What the service just learnt.
#[derive(Debug, Clone, Copy, PartialEq, Eq, Structural)]
pub enum Event {
    /// It started, and a phone was attached already or not. Such a phone
    /// produces no event of udev.
    Started { attached: bool },
    /// udev reported a phone.
    Attached,
    /// udev reported that something was unplugged.
    Detached,
    /// The adb server was started, or could not be.
    ServerStarted(bool),
    /// The wait for adb to notice a phone is over.
    Settled,
    /// Time has passed, and a phone in sight is not ready or all are. A phone that
    /// becomes ready, as where the person accepts the debugging prompt, produces no
    /// event of udev.
    Tick { waiting: bool },
}

/// What the service does next.
#[derive(Debug, Clone, Copy, PartialEq, Eq, Structural)]
pub enum Step {
    /// Wait for the next event.
    Wait,
    /// Start the adb server.
    StartServer,
    /// Give adb a moment.
    Settle,
    /// Ask adb which devices there are, and compare.
    Refresh,
}

/// What decides when adb is run.
#[derive(Debug, Clone, Copy, PartialEq, Eq, Structural)]
pub struct Daemon {
    /// Whether udev has reported a phone yet.
    pub phone_seen: bool,
    pub phase: Phase,
}

/// What the service does about an event, and what it waits for then.
pub open spec fn reaction(daemon: Daemon, event: Event) -> (Daemon, Step) {
    match (event, daemon.phase) {
        (Event::Started { attached: true }, _) => (
            Daemon { phone_seen: true, phase: Phase::FirstServer },
            Step::StartServer,
        ),
        (Event::Attached, _) => (
            Daemon { phone_seen: true, phase: Phase::Server },
            Step::StartServer,
        ),
        // Without a phone so far, what left was none, and to ask adb would start
        // its server.
        (Event::Detached, _) => (
            Daemon { phase: Phase::Idle, ..daemon },
            if daemon.phone_seen {
                Step::Refresh
            } else {
                Step::Wait
            },
        ),
        (Event::Tick { waiting: true }, _) => if daemon.phone_seen {
            (Daemon { phase: Phase::Idle, ..daemon }, Step::Refresh)
        } else {
            (daemon, Step::Wait)
        },
        (Event::ServerStarted(_), Phase::FirstServer) => (
            Daemon { phase: Phase::Idle, ..daemon },
            Step::Refresh,
        ),
        (Event::ServerStarted(true), Phase::Server) => (
            Daemon { phase: Phase::Settling, ..daemon },
            Step::Settle,
        ),
        (Event::ServerStarted(false), Phase::Server) => (
            Daemon { phase: Phase::Idle, ..daemon },
            Step::Wait,
        ),
        (Event::Settled, Phase::Settling) => (
            Daemon { phase: Phase::Idle, ..daemon },
            Step::Refresh,
        ),
        _ => (daemon, Step::Wait),
    }
}

impl Daemon {
    /// Before anything happened.
    pub open spec fn fresh() -> Daemon {
        Daemon { phone_seen: false, phase: Phase::Idle }
    }

    pub fn new() -> (r: Daemon)
        ensures
            r == Daemon::fresh(),
    {
        Daemon { phone_seen: false, phase: Phase::Idle }
    }

    /// What the service does about an event.
    pub fn react(&mut self, event: Event) -> (r: Step)
        ensures
            (*final(self), r) == reaction(*old(self), event),
    {
        match (event, self.phase) {
            (Event::Started { attached: true }, _) => {
                self.phone_seen = true;
                self.phase = Phase::FirstServer;
                Step::StartServer
            },
            (Event::Attached, _) => {
                self.phone_seen = true;
                self.phase = Phase::Server;
                Step::StartServer
            },
            (Event::Detached, _) => {
                self.phase = Phase::Idle;
                if self.phone_seen {
                    Step::Refresh
                } else {
                    Step::Wait
                }
            },
            (Event::Tick { waiting: true }, _) => {
                if self.phone_seen {
                    self.phase = Phase::Idle;
                    Step::Refresh
                } else {
                    Step::Wait
                }
            },
            (Event::ServerStarted(_), Phase::FirstServer) => {
                self.phase = Phase::Idle;
                Step::Refresh
            },
            (Event::ServerStarted(true), Phase::Server) => {
                self.phase = Phase::Settling;
                Step::Settle
            },
            (Event::ServerStarted(false), Phase::Server) => {
                self.phase = Phase::Idle;
                Step::Wait
            },
            (Event::Settled, Phase::Settling) => {
                self.phase = Phase::Idle;
                Step::Refresh
            },
            _ => Step::Wait,
        }
    }
}

/// What the service is after some events, and all that it did about them.
pub open spec fn history(daemon: Daemon, events: Seq<Event>) -> (Daemon, Seq<Step>)
    decreases events.len(),
{
    if events.len() == 0 {
        (daemon, Seq::empty())
    } else {
        let (before, steps) = history(daemon, events.drop_last());
        let (after, step) = reaction(before, events.last());
        (after, steps.push(step))
    }
}

/// Whether an event says that there is a phone.
pub open spec fn shows_a_phone(event: Event) -> bool {
    event == Event::Attached || event == Event::Started { attached: true }
}

/// While no phone is reported, the service does nothing but wait: it never runs
/// adb, whatever else is unplugged.
pub proof fn law_without_a_phone_adb_is_not_run(events: Seq<Event>)
    requires
        forall|i: int| 0 <= i < events.len() ==> !shows_a_phone(#[trigger] events[i]),
    ensures
        history(Daemon::fresh(), events).0 == Daemon::fresh(),
        forall|i: int|
            0 <= i < events.len() ==> #[trigger] history(Daemon::fresh(), events).1[i]
                == Step::Wait,
    decreases events.len(),
{
    if events.len() > 0 {
        law_without_a_phone_adb_is_not_run(events.drop_last());
        lemma_one_step_per_event(Daemon::fresh(), events.drop_last());
        assert(events.last() == events[events.len() - 1]);
    }
}

/// adb is asked a question only after its server was started on purpose.
pub proof fn law_the_server_is_started_before_adb_is_asked(events: Seq<Event>, i: int)
    requires
        0 <= i < events.len(),
        history(Daemon::fresh(), events).1[i] == Step::Refresh,
    ensures
        exists|j: int|
            0 <= j < i && #[trigger] history(Daemon::fresh(), events).1[j] == Step::StartServer,
    decreases events.len(),
{
    let rest = events.drop_last();
    let before = history(Daemon::fresh(), rest);
    let after = history(Daemon::fresh(), events);
    lemma_one_step_per_event(Daemon::fresh(), rest);
    if i < rest.len() {
        law_the_server_is_started_before_adb_is_asked(rest, i);
        let j = choose|j: int| 0 <= j < i && #[trigger] before.1[j] == Step::StartServer;
        assert(after.1[j] == Step::StartServer);
    } else {
        lemma_a_phone_seen_started_the_server(rest);
        let j = choose|j: int| 0 <= j < rest.len() && #[trigger] before.1[j] == Step::StartServer;
        assert(after.1[j] == Step::StartServer);
    }
}

/// Once a phone was reported, adb is asked at every tick while a phone in sight is
/// not ready, and at no tick while all are: a phone goes from waiting for the
/// prompt to ready without being plugged in again.
pub proof fn law_a_waiting_phone_is_looked_at_again(events: Seq<Event>, i: int)
    requires
        0 <= i < events.len(),
        shows_a_phone(events[i]),
    ensures
        ({
            let daemon = history(Daemon::fresh(), events).0;
            &&& reaction(daemon, Event::Tick { waiting: true }).1 == Step::Refresh
            &&& reaction(daemon, Event::Tick { waiting: false }) == (daemon, Step::Wait)
        }),
    decreases events.len(),
{
    if i < events.len() - 1 {
        law_a_waiting_phone_is_looked_at_again(events.drop_last(), i);
    }
}

proof fn lemma_one_step_per_event(daemon: Daemon, events: Seq<Event>)
    ensures
        history(daemon, events).1.len() == events.len(),
    decreases events.len(),
{
    if events.len() > 0 {
        lemma_one_step_per_event(daemon, events.drop_last());
    }
}

proof fn lemma_a_phone_seen_started_the_server(events: Seq<Event>)
    ensures
        ({
            let (daemon, steps) = history(Daemon::fresh(), events);
            &&& daemon.phase != Phase::Idle ==> daemon.phone_seen
            &&& daemon.phone_seen ==> exists|j: int|
                0 <= j < events.len() && #[trigger] steps[j] == Step::StartServer
        }),
    decreases events.len(),
{
    if events.len() > 0 {
        let rest = events.drop_last();
        lemma_a_phone_seen_started_the_server(rest);
        lemma_one_step_per_event(Daemon::fresh(), rest);
        let (before, steps) = history(Daemon::fresh(), rest);
        let (after, all) = history(Daemon::fresh(), events);
        if before.phone_seen {
            let j = choose|j: int| 0 <= j < rest.len() && #[trigger] steps[j] == Step::StartServer;
            assert(all[j] == Step::StartServer);
        } else if after.phone_seen {
            assert(all[rest.len() as int] == Step::StartServer);
        }
    }
}

/// A phone that is plugged in has the server started; where that succeeds it is given
/// a moment and then looked at, and where it fails it is left. A phone that was there
/// before is looked at at once, whether the server started or not.
pub proof fn law_a_phone_that_shows_up_is_looked_at(daemon: Daemon, ok: bool)
    ensures
        ({
            let (server, step) = reaction(daemon, Event::Attached);
            &&& step == Step::StartServer
            &&& reaction(server, Event::ServerStarted(false)).1 == Step::Wait
            &&& reaction(server, Event::ServerStarted(true)).1 == Step::Settle
            &&& reaction(
                reaction(server, Event::ServerStarted(true)).0,
                Event::Settled,
            ).1 == Step::Refresh
        }),
        ({
            let (server, step) = reaction(daemon, Event::Started { attached: true });
            &&& step == Step::StartServer
            &&& reaction(server, Event::ServerStarted(ok)).1 == Step::Refresh
        }),
        reaction(daemon, Event::Started { attached: false }) == (daemon, Step::Wait),
{
}

/// Once a phone was reported, whatever is unplugged leads to a look.
pub proof fn law_a_phone_that_leaves_is_noticed(events: Seq<Event>, i: int)
    requires
        0 <= i < events.len(),
        shows_a_phone(events[i]),
    ensures
        reaction(history(Daemon::fresh(), events).0, Event::Detached).1 == Step::Refresh,
    decreases events.len(),
{
    if i < events.len() - 1 {
        law_a_phone_that_leaves_is_noticed(events.drop_last(), i);
    }
}

/// Only what is waited for counts: an answer that comes in another phase changes
/// nothing and leads to nothing, and neither does a tick without a phone to look at.
pub proof fn law_what_nobody_waits_for_changes_nothing(daemon: Daemon, ok: bool)
    ensures
        daemon.phase == Phase::Idle || daemon.phase == Phase::Settling ==> reaction(
            daemon,
            Event::ServerStarted(ok),
        ) == (daemon, Step::Wait),
        daemon.phase != Phase::Settling ==> reaction(daemon, Event::Settled) == (
            daemon,
            Step::Wait,
        ),
        reaction(daemon, Event::Tick { waiting: false }) == (daemon, Step::Wait),
        !daemon.phone_seen ==> reaction(daemon, Event::Tick { waiting: true }) == (
            daemon,
            Step::Wait,
        ),
{
}

/// The server is started exactly where a phone shows up, whatever is waited for; a look
/// at the phones, a server that failed for a phone just plugged in and anything
/// unplugged end the wait; and nothing makes the service forget that there was a phone.
pub proof fn law_every_wait_ends(daemon: Daemon, event: Event)
    ensures
        ({
            let (after, step) = reaction(daemon, event);
            &&& step == Step::StartServer <==> shows_a_phone(event)
            &&& after.phone_seen <==> daemon.phone_seen || shows_a_phone(event)
            &&& step == Step::Refresh ==> after.phase == Phase::Idle
            &&& event == Event::Detached ==> after.phase == Phase::Idle
            &&& event == Event::ServerStarted(false) && daemon.phase == Phase::Server
                ==> after.phase == Phase::Idle
            &&& step == Step::Settle <==> event == Event::ServerStarted(true) && daemon.phase
                == Phase::Server
        }),
{
}

} // verus!
