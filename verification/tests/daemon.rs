use vasak_connect::daemon::{Daemon, Event, Step, REAP_INTERVAL, SETTLE};

fn steps(events: &[Event]) -> Vec<Step> {
    let mut daemon = Daemon::new();
    events.iter().map(|event| daemon.react(*event)).collect()
}

#[test]
fn without_a_phone_nothing_is_run() {
    let quiet = [
        Event::Started { attached: false },
        Event::Detached,
        Event::Detached,
        Event::ServerStarted(true),
        Event::Settled,
    ];
    assert_eq!(steps(&quiet), vec![Step::Wait; 5]);
}

#[test]
fn a_phone_that_is_plugged_in_is_looked_at_after_a_moment() {
    assert_eq!(
        steps(&[
            Event::Started { attached: false },
            Event::Attached,
            Event::ServerStarted(true),
            Event::Settled,
            Event::Detached,
        ]),
        vec![Step::Wait, Step::StartServer, Step::Settle, Step::Refresh, Step::Refresh]
    );
}

#[test]
fn a_server_that_does_not_start_is_not_asked() {
    assert_eq!(
        steps(&[Event::Attached, Event::ServerStarted(false), Event::Settled]),
        vec![Step::StartServer, Step::Wait, Step::Wait]
    );
}

#[test]
fn a_phone_that_was_there_before_is_looked_at_at_once() {
    let started = Event::Started { attached: true };
    assert_eq!(
        steps(&[started, Event::ServerStarted(true)]),
        vec![Step::StartServer, Step::Refresh]
    );
    assert_eq!(
        steps(&[started, Event::ServerStarted(false)]),
        vec![Step::StartServer, Step::Refresh]
    );
}

#[test]
fn the_waits_are_short() {
    assert_eq!(REAP_INTERVAL, 2);
    assert_eq!(SETTLE, 600);
}

#[test]
fn a_phone_that_waits_is_looked_at_at_every_tick() {
    assert_eq!(
        steps(&[
            Event::Tick { waiting: true },
            Event::Attached,
            Event::ServerStarted(true),
            Event::Settled,
            Event::Tick { waiting: true },
            Event::Tick { waiting: true },
            Event::Tick { waiting: false },
        ]),
        vec![
            Step::Wait,
            Step::StartServer,
            Step::Settle,
            Step::Refresh,
            Step::Refresh,
            Step::Refresh,
            Step::Wait,
        ]
    );
}
