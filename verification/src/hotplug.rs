//! Noticing that a phone was plugged in, without asking anybody.
//!
//! The service is meant to cost nothing while there is no device, so it does
//! not poll adb. It parks on udev's netlink socket instead. This module decides
//! what the events on that socket mean.

use vstd::prelude::*;

use crate::text::{chars_of, contains_text, has_text, spaced, spaced_of};

verus! {

broadcast use vstd::string::group_string_axioms;

/// The USB interface descriptor Android exposes when debugging is on:
/// vendor-specific class `ff`, subclass `42`, protocol `01`.
///
/// This triple is defined by the ADB protocol itself, so it is the same on every
/// phone from every manufacturer.
pub const ADB_INTERFACE: &'static str = ":ff4201:";

#[allow(inconsistent_fields)]
#[derive(Debug)]
pub enum HotplugEvent {
    /// A device exposing the ADB interface appeared. The serial is udev's
    /// `ID_SERIAL_SHORT`, which is the same string adb reports.
    Attached { serial: String, model: String },
    /// It went away. udev gives no properties on removal for some devices, so
    /// the serial may be missing.
    Detached { serial: Option<String> },
}

#[allow(inconsistent_fields)]
pub enum HotplugEventView {
    Attached { serial: Seq<char>, model: Seq<char> },
    Detached { serial: Option<Seq<char>> },
}

/// What an optional string spells.
pub open spec fn text_view(s: Option<String>) -> Option<Seq<char>> {
    match s {
        Some(s) => Some(s@),
        None => None,
    }
}

impl View for HotplugEvent {
    type V = HotplugEventView;

    open spec fn view(&self) -> HotplugEventView {
        match self {
            HotplugEvent::Attached { serial, model } => HotplugEventView::Attached {
                serial: serial@,
                model: model@,
            },
            HotplugEvent::Detached { serial } => HotplugEventView::Detached {
                serial: text_view(*serial),
            },
        }
    }
}

impl Clone for HotplugEvent {
    fn clone(&self) -> (r: HotplugEvent)
        ensures
            r@ == self@,
    {
        match self {
            HotplugEvent::Attached { serial, model } => HotplugEvent::Attached {
                serial: serial.clone(),
                model: model.clone(),
            },
            HotplugEvent::Detached { serial } => HotplugEvent::Detached {
                serial: match serial {
                    Some(serial) => Some(serial.clone()),
                    None => None,
                },
            },
        }
    }
}

/// What happened to a USB device.
#[derive(Debug, Clone, Copy, PartialEq, Eq, Structural)]
pub enum UsbAction {
    Add,
    Remove,
    Other,
}

/// An event of udev, with those of its properties that matter: a property that
/// is missing, or is not text, is `None`.
pub struct UsbEvent {
    pub action: UsbAction,
    /// `ID_SERIAL_SHORT`
    pub serial: Option<String>,
    /// `ID_USB_INTERFACES`
    pub interfaces: Option<String>,
    /// `ID_MODEL`
    pub model: Option<String>,
}

/// Whether a device has the ADB interface among its own. Only devices in
/// debugging mode do: a phone plugged in for charging is listed too, and
/// reacting to it would mean starting the adb server for something that will
/// never answer.
pub open spec fn exposes_adb(interfaces: Option<String>) -> bool {
    match interfaces {
        Some(list) => has_text(list@, ADB_INTERFACE@),
        None => false,
    }
}

/// What an event of udev means for this service.
///
/// On removal udev often has no properties left to give, so every USB removal
/// is reported.
pub open spec fn meaning(event: UsbEvent) -> Option<HotplugEventView> {
    match event.action {
        UsbAction::Add => match event.serial {
            Some(serial) if exposes_adb(event.interfaces) => Some(
                HotplugEventView::Attached {
                    serial: serial@,
                    model: match event.model {
                        Some(model) => spaced(model@),
                        None => Seq::empty(),
                    },
                },
            ),
            _ => None,
        },
        UsbAction::Remove => Some(HotplugEventView::Detached { serial: text_view(event.serial) }),
        UsbAction::Other => None,
    }
}

fn has_adb(interfaces: &Option<String>) -> (r: bool)
    ensures
        r == exposes_adb(*interfaces),
{
    match interfaces {
        Some(list) => {
            let chars = chars_of(list.as_str());
            contains_text(chars.as_slice(), ADB_INTERFACE)
        },
        None => false,
    }
}

/// What an event of udev means for this service.
pub fn classify(event: UsbEvent) -> (r: Option<HotplugEvent>)
    ensures
        match r {
            Some(e) => meaning(event) == Some(e@),
            None => meaning(event) is None,
        },
{
    match event.action {
        UsbAction::Add => {
            if !has_adb(&event.interfaces) {
                return None;
            }
            match event.serial {
                Some(serial) => {
                    let model = match &event.model {
                        Some(model) => {
                            let chars = chars_of(model.as_str());
                            spaced_of(chars.as_slice())
                        },
                        None => String::new(),
                    };
                    Some(HotplugEvent::Attached { serial, model })
                },
                None => None,
            }
        },
        UsbAction::Remove => Some(HotplugEvent::Detached { serial: event.serial }),
        UsbAction::Other => None,
    }
}

/// What came of reading the next event on the socket.
pub enum Reading {
    /// No event is left to read.
    Drained,
    /// The event means nothing to this service.
    Ignored,
    /// The event is to be handed on.
    Deliver(HotplugEvent),
}

/// What to do about the next event on the socket, if there is one.
pub fn reading(event: Option<UsbEvent>) -> (r: Reading)
    ensures
        match event {
            None => r is Drained,
            Some(e) => match meaning(e) {
                None => r is Ignored,
                Some(v) => r matches Reading::Deliver(told) && told@ == v,
            },
        },
{
    match event {
        None => Reading::Drained,
        Some(event) => match classify(event) {
            None => Reading::Ignored,
            Some(told) => Reading::Deliver(told),
        },
    }
}

/// Whether any USB device currently exposes the ADB interface, given the
/// interfaces of each.
///
/// Asked at startup so the adb server is not woken for a machine with no phone
/// attached.
pub fn any_android_attached(devices: &Vec<Option<String>>) -> (r: bool)
    ensures
        r == exists|i: int| 0 <= i < devices@.len() && exposes_adb(#[trigger] devices@[i]),
{
    for i in 0..devices.len()
        invariant
            forall|j: int| 0 <= j < i ==> !exposes_adb(#[trigger] devices@[j]),
    {
        if has_adb(&devices[i]) {
            return true;
        }
    }
    false
}

/// What the thread that watches udev just learnt.
#[derive(Debug, Clone, Copy, PartialEq, Eq, Structural)]
pub enum WatchInput {
    /// The netlink socket was opened, or could not be.
    Opened(bool),
    /// The wait on the socket ended: what `poll` returned, and whether it was
    /// interrupted.
    Woken { ready: i32, interrupted: bool },
    /// The event that was read means nothing to this service.
    Ignored,
    /// The event that was read was handed on, or nobody took it.
    Delivered(bool),
    /// No event is left to read.
    Drained,
}

/// What the thread that watches udev does next.
#[derive(Debug, Clone, Copy, PartialEq, Eq, Structural)]
pub enum WatchStep {
    /// Wait on the socket, indefinitely.
    Wait,
    /// Read the next event; one notification can cover several.
    Read,
    /// Stop watching.
    Stop,
}

pub open spec fn watch_step(input: WatchInput) -> WatchStep {
    match input {
        WatchInput::Opened(true) => WatchStep::Wait,
        WatchInput::Woken { ready, interrupted } => if ready >= 0 {
            WatchStep::Read
        } else if interrupted {
            WatchStep::Wait
        } else {
            WatchStep::Stop
        },
        WatchInput::Ignored => WatchStep::Read,
        WatchInput::Delivered(true) => WatchStep::Read,
        WatchInput::Drained => WatchStep::Wait,
        _ => WatchStep::Stop,
    }
}

/// What the thread that watches udev does next. It stops only where the socket
/// is lost or nobody listens any more.
pub fn watch(input: WatchInput) -> (r: WatchStep)
    ensures
        r == watch_step(input),
{
    match input {
        WatchInput::Opened(ok) => if ok {
            WatchStep::Wait
        } else {
            WatchStep::Stop
        },
        WatchInput::Woken { ready, interrupted } => if ready >= 0 {
            WatchStep::Read
        } else if interrupted {
            WatchStep::Wait
        } else {
            WatchStep::Stop
        },
        WatchInput::Ignored => WatchStep::Read,
        WatchInput::Delivered(taken) => if taken {
            WatchStep::Read
        } else {
            WatchStep::Stop
        },
        WatchInput::Drained => WatchStep::Wait,
    }
}

/// A phone is reported as attached only where it has a serial and the ADB
/// interface; nothing else but a removal is reported at all.
pub proof fn law_only_debugging_phones_are_attached(event: UsbEvent)
    ensures
        meaning(event) matches Some(HotplugEventView::Attached { serial, .. }) ==> event.action
            == UsbAction::Add && exposes_adb(event.interfaces) && text_view(event.serial) == Some(
            serial,
        ),
        meaning(event) matches Some(HotplugEventView::Detached { .. }) <==> event.action
            == UsbAction::Remove,
{
}

/// What the events of udev mean to this service, in order, without those that
/// mean nothing.
pub open spec fn meanings(events: Seq<UsbEvent>) -> Seq<HotplugEventView> {
    events.filter_map(|event: UsbEvent| meaning(event))
}

/// What the thread that watches udev has handed on once it read some events, and
/// what it does next, where `listeners` says how many events are taken before
/// nobody listens any more.
pub open spec fn handed_on(events: Seq<UsbEvent>, listeners: nat) -> (
    Seq<HotplugEventView>,
    WatchStep,
)
    decreases events.len(),
{
    if events.len() == 0 {
        (Seq::empty(), WatchStep::Read)
    } else {
        let (told, step) = handed_on(events.drop_last(), listeners);
        if step != WatchStep::Read {
            (told, step)
        } else {
            match meaning(events.last()) {
                None => (told, watch_step(WatchInput::Ignored)),
                Some(v) => if told.len() < listeners {
                    (told.push(v), watch_step(WatchInput::Delivered(true)))
                } else {
                    (told, watch_step(WatchInput::Delivered(false)))
                },
            }
        }
    }
}

/// Every event that means something is handed on, in order, and nothing else is.
/// The thread reads until no event is left and then waits for more; it stops at the
/// first event that nobody takes.
pub proof fn law_every_event_that_matters_is_handed_on(events: Seq<UsbEvent>, listeners: nat)
    ensures
        meanings(events).len() <= listeners ==> handed_on(events, listeners) == (
            meanings(events),
            WatchStep::Read,
        ),
        meanings(events).len() > listeners ==> handed_on(events, listeners) == (
            meanings(events).take(listeners as int),
            WatchStep::Stop,
        ),
        watch_step(WatchInput::Drained) == WatchStep::Wait,
    decreases events.len(),
{
    reveal(Seq::filter_map);
    if events.len() > 0 {
        let rest = events.drop_last();
        law_every_event_that_matters_is_handed_on(rest, listeners);
        let all = meanings(events);
        let before = meanings(rest);
        assert(all == match meaning(events.last()) {
            Some(v) => before.push(v),
            None => before,
        });
        if before.len() == listeners {
            assert(before.push(all.last()).take(listeners as int) == before);
            assert(all.take(listeners as int) == before);
        } else if before.len() > listeners {
            assert(all.take(listeners as int) == before.take(listeners as int));
        }
    }
}

/// Every phone in debugging mode that is plugged in is reported, with its serial and
/// with its model in blanks; every removal is reported with what is known of it; and
/// nothing else is.
pub proof fn law_what_udev_says_is_what_is_reported(event: UsbEvent)
    ensures
        ({
            let debugging = event.interfaces is Some && exists|i: int|
                0 <= i <= event.interfaces->0@.len() - 8 && #[trigger] event.interfaces->0@.subrange(
                    i,
                    i + 8,
                ) == seq![':', 'f', 'f', '4', '2', '0', '1', ':'];
            match event.action {
                UsbAction::Add => match meaning(event) {
                    Some(HotplugEventView::Attached { serial, model }) => {
                        &&& debugging
                        &&& event.serial is Some
                        &&& serial == event.serial->0@
                        &&& event.model is None ==> model.len() == 0
                        &&& event.model is Some ==> model.len() == event.model->0@.len()
                            && forall|j: int|
                            0 <= j < model.len() ==> #[trigger] model[j] == (if event.model->0@[j]
                                == '_' {
                                ' '
                            } else {
                                event.model->0@[j]
                            })
                    },
                    Some(_) => false,
                    None => !debugging || event.serial is None,
                },
                UsbAction::Remove => match meaning(event) {
                    Some(HotplugEventView::Detached { serial }) => match event.serial {
                        Some(known) => serial == Some(known@),
                        None => serial is None,
                    },
                    _ => false,
                },
                UsbAction::Other => meaning(event) is None,
            }
        }),
{
    reveal_strlit(":ff4201:");
    assert(ADB_INTERFACE@ == seq![':', 'f', 'f', '4', '2', '0', '1', ':']);
    if let Some(list) = event.interfaces {
        if exposes_adb(event.interfaces) {
            let i = choose|i: int|
                0 <= i && i + ADB_INTERFACE@.len() <= list@.len() && #[trigger] list@.subrange(
                    i,
                    i + ADB_INTERFACE@.len(),
                ) == ADB_INTERFACE@;
            assert(list@.subrange(i, i + 8) == seq![':', 'f', 'f', '4', '2', '0', '1', ':']);
        }
        if exists|i: int|
            0 <= i <= list@.len() - 8 && #[trigger] list@.subrange(i, i + 8) == seq![
                ':',
                'f',
                'f',
                '4',
                '2',
                '0',
                '1',
                ':',
            ] {
            let i = choose|i: int|
                0 <= i <= list@.len() - 8 && #[trigger] list@.subrange(i, i + 8) == seq![
                    ':',
                    'f',
                    'f',
                    '4',
                    '2',
                    '0',
                    '1',
                    ':',
                ];
            assert(list@.subrange(i, i + ADB_INTERFACE@.len()) == ADB_INTERFACE@);
        }
    }
}

/// The watch goes on through interruptions, events of no interest and empty sockets,
/// and ends where the socket cannot be opened or is lost, or nobody listens.
pub proof fn law_the_watch_ends_only_without_a_socket_or_a_listener(ready: i32)
    ensures
        watch_step(WatchInput::Opened(true)) == WatchStep::Wait,
        watch_step(WatchInput::Opened(false)) == WatchStep::Stop,
        ready >= 0 ==> watch_step(WatchInput::Woken { ready, interrupted: false })
            == WatchStep::Read && watch_step(WatchInput::Woken { ready, interrupted: true })
            == WatchStep::Read,
        ready < 0 ==> watch_step(WatchInput::Woken { ready, interrupted: true })
            == WatchStep::Wait && watch_step(WatchInput::Woken { ready, interrupted: false })
            == WatchStep::Stop,
        watch_step(WatchInput::Ignored) == WatchStep::Read,
        watch_step(WatchInput::Delivered(true)) == WatchStep::Read,
        watch_step(WatchInput::Delivered(false)) == WatchStep::Stop,
        watch_step(WatchInput::Drained) == WatchStep::Wait,
{
}

/// An event is told with all that it holds.
pub proof fn law_every_part_of_an_event_counts(event: HotplugEvent, text: String)
    ensures
        event matches HotplugEvent::Attached { serial, model } ==> event@
            == (HotplugEventView::Attached { serial: serial@, model: model@ }),
        event matches HotplugEvent::Detached { serial: None } ==> event@
            == (HotplugEventView::Detached { serial: None }),
        event matches HotplugEvent::Detached { serial: Some(serial) } ==> event@
            == (HotplugEventView::Detached { serial: Some(serial@) }),
        text_view(Some(text)) == Some(text@),
        text_view(None) is None,
{
}

} // verus!
