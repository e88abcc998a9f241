use vasak_connect::hotplug::{
    any_android_attached, classify, reading, watch, HotplugEvent, Reading, UsbAction, UsbEvent,
    WatchInput, WatchStep, ADB_INTERFACE,
};

fn event(action: UsbAction, serial: Option<&str>, interfaces: Option<&str>, model: Option<&str>) -> UsbEvent {
    UsbEvent {
        action,
        serial: serial.map(str::to_string),
        interfaces: interfaces.map(str::to_string),
        model: model.map(str::to_string),
    }
}

#[test]
fn a_phone_in_debugging_mode_is_attached() {
    let seen = event(
        UsbAction::Add,
        Some("ZY22HB6KPB"),
        Some(":060101:ff4201:"),
        Some("motorola_edge_40"),
    );
    match classify(seen) {
        Some(HotplugEvent::Attached { serial, model }) => {
            assert_eq!(serial, "ZY22HB6KPB");
            assert_eq!(model, "motorola edge 40");
        }
        _ => panic!("it is attached"),
    }
    let nameless = event(UsbAction::Add, Some("A"), Some(ADB_INTERFACE), None);
    assert!(matches!(classify(nameless), Some(HotplugEvent::Attached { model, .. }) if model.is_empty()));
}

#[test]
fn other_usb_devices_are_ignored() {
    assert!(classify(event(UsbAction::Add, Some("A"), Some(":060101:"), None)).is_none());
    assert!(classify(event(UsbAction::Add, Some("A"), None, None)).is_none());
    assert!(classify(event(UsbAction::Add, None, Some(ADB_INTERFACE), None)).is_none());
    assert!(classify(event(UsbAction::Other, Some("A"), Some(ADB_INTERFACE), None)).is_none());
}

#[test]
fn every_removal_is_reported() {
    let known = event(UsbAction::Remove, Some("A"), None, None);
    assert!(matches!(classify(known), Some(HotplugEvent::Detached { serial: Some(s) }) if s == "A"));
    let bare = event(UsbAction::Remove, None, None, None);
    assert!(matches!(classify(bare), Some(HotplugEvent::Detached { serial: None })));
}

#[test]
fn a_phone_among_other_devices_is_found() {
    let text = |s: &str| Some(s.to_string());
    assert!(any_android_attached(&vec![None, text(":030101:"), text(":ff4201:080650:")]));
    assert!(!any_android_attached(&vec![None, text(":030101:"), text("ff4201")]));
    assert!(!any_android_attached(&Vec::new()));
}

#[test]
fn watching_ends_only_where_there_is_nothing_to_watch() {
    assert_eq!(watch(WatchInput::Opened(true)), WatchStep::Wait);
    assert_eq!(watch(WatchInput::Opened(false)), WatchStep::Stop);
    assert_eq!(watch(WatchInput::Woken { ready: 1, interrupted: false }), WatchStep::Read);
    assert_eq!(watch(WatchInput::Woken { ready: -1, interrupted: true }), WatchStep::Wait);
    assert_eq!(watch(WatchInput::Woken { ready: -1, interrupted: false }), WatchStep::Stop);
    assert_eq!(watch(WatchInput::Ignored), WatchStep::Read);
    assert_eq!(watch(WatchInput::Delivered(true)), WatchStep::Read);
    assert_eq!(watch(WatchInput::Delivered(false)), WatchStep::Stop);
    assert_eq!(watch(WatchInput::Drained), WatchStep::Wait);
}

#[test]
fn a_copy_of_an_event_says_the_same() {
    let copy = HotplugEvent::Detached { serial: Some("A".to_string()) }.clone();
    assert!(matches!(copy, HotplugEvent::Detached { serial: Some(s) } if s == "A"));
}

#[test]
fn what_is_read_is_handed_on_ignored_or_drained() {
    assert!(matches!(reading(None), Reading::Drained));
    let charging = event(UsbAction::Add, Some("A"), Some(":060101:"), None);
    assert!(matches!(reading(Some(charging)), Reading::Ignored));
    let phone = event(UsbAction::Add, Some("A"), Some(ADB_INTERFACE), Some("x_y"));
    assert!(matches!(
        reading(Some(phone)),
        Reading::Deliver(HotplugEvent::Attached { serial, model }) if serial == "A" && model == "x y"
    ));
    let removal = event(UsbAction::Remove, None, None, None);
    assert!(matches!(
        reading(Some(removal)),
        Reading::Deliver(HotplugEvent::Detached { serial: None })
    ));
}

#[test]
fn every_event_that_matters_is_handed_on_in_order() {
    let mut queue = vec![
        event(UsbAction::Add, Some("A"), Some(ADB_INTERFACE), None),
        event(UsbAction::Other, Some("A"), None, None),
        event(UsbAction::Remove, Some("B"), None, None),
        event(UsbAction::Add, Some("C"), Some(":060101:"), None),
    ]
    .into_iter();
    let mut told = Vec::new();
    let mut step = WatchStep::Read;
    while step == WatchStep::Read {
        step = watch(match reading(queue.next()) {
            Reading::Drained => WatchInput::Drained,
            Reading::Ignored => WatchInput::Ignored,
            Reading::Deliver(event) => {
                told.push(format!("{:?}", event));
                WatchInput::Delivered(true)
            }
        });
    }
    assert_eq!(step, WatchStep::Wait);
    assert_eq!(told.len(), 2);
    assert!(told[0].starts_with("Attached"));
    assert!(told[1].starts_with("Detached"));
}
