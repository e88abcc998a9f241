use vasak_connect::adb::{parse_devices, AdbError};
use vasak_connect::protocol::{Device, DeviceState, Transport};
use vasak_connect::registry::Registry;
use vasak_connect::service::{farewells, AppLaunch, AppListing, Effect, Farewell, State};

fn phone(serial: &str, model: &str, state: DeviceState) -> Device {
    Device {
        serial: serial.to_string(),
        model: model.to_string(),
        transport: Transport::Usb,
        state,
        trusted: false,
        address: String::new(),
    }
}

fn fresh() -> State<u32> {
    State::new(Registry::default())
}

fn arrived(pairs: &[(String, String)]) -> Vec<(&str, &str)> {
    pairs.iter().map(|(s, m)| (s.as_str(), m.as_str())).collect()
}

#[test]
fn a_ready_phone_arrives_and_is_remembered() {
    let mut state = fresh();
    let sweep = state.refresh_devices(Ok(vec![phone("A", "edge", DeviceState::Ready)]), "t1");
    assert_eq!(arrived(&sweep.arrived), [("A", "edge")]);
    assert!(sweep.gone.is_empty());
    assert_eq!(sweep.effects.len(), 1);
    match &sweep.effects[0] {
        Effect::Save(registry) => assert_eq!(registry.get("A").unwrap().first_seen, "t1"),
        Effect::Changed(_) => panic!("nothing changed"),
    }
    // Trusted means known before.
    assert!(!state.device("A").unwrap().trusted);
}

#[test]
fn a_phone_that_waits_for_the_prompt_is_not_remembered() {
    let mut state = fresh();
    let waiting = vec![phone("A", "edge", DeviceState::Unauthorized)];
    let sweep = state.refresh_devices(Ok(waiting), "t1");
    assert_eq!(arrived(&sweep.arrived), [("A", "edge")]);
    assert!(sweep.effects.is_empty());
    assert!(!state.registry.is_known("A"));
    // Accepting the prompt is told without plugging it in again.
    let sweep = state.refresh_devices(Ok(vec![phone("A", "edge", DeviceState::Ready)]), "t2");
    assert!(sweep.arrived.is_empty());
    assert_eq!(sweep.effects.len(), 2);
    assert!(matches!(&sweep.effects[0], Effect::Save(r) if r.is_known("A")));
    assert!(matches!(&sweep.effects[1], Effect::Changed(d) if d.state == DeviceState::Ready));
    assert_eq!(state.registry.get("A").unwrap().first_seen, "t2");
}

#[test]
fn a_second_look_at_the_same_phones_finds_nothing() {
    let list = || Ok(vec![phone("B", "x", DeviceState::Ready), phone("A", "", DeviceState::Offline)]);
    let mut state = fresh();
    state.refresh_devices(list(), "t1");
    let sweep = state.refresh_devices(list(), "t2");
    assert!(sweep.effects.is_empty());
    assert!(sweep.arrived.is_empty());
    assert!(sweep.gone.is_empty());
    assert!(state.device("B").unwrap().trusted);
    assert!(!state.device("A").unwrap().trusted);
    assert_eq!(state.registry.get("B").unwrap().first_seen, "t1");
}

#[test]
fn a_phone_that_leaves_loses_its_list_of_apps() {
    let mut state = fresh();
    let both = vec![phone("A", "x", DeviceState::Ready), phone("B", "y", DeviceState::Ready)];
    state.refresh_devices(Ok(both), "t1");
    let app = || vec![("a.b".to_string(), "App".to_string(), false)];
    state.store_apps("A", app());
    state.store_apps("B", app());
    let sweep = state.refresh_devices(Ok(vec![phone("B", "y", DeviceState::Ready)]), "t2");
    assert_eq!(sweep.gone, ["A"]);
    assert!(state.device("A").is_err());
    assert!(matches!(state.list_apps("B", false), Ok(AppListing::Cached(_))));
    // It stays known, and its apps are asked for again when it is back.
    assert!(state.registry.is_known("A"));
    let both = vec![phone("A", "x", DeviceState::Ready), phone("B", "y", DeviceState::Ready)];
    let sweep = state.refresh_devices(Ok(both), "t3");
    assert_eq!(arrived(&sweep.arrived), [("A", "x")]);
    assert!(sweep.effects.is_empty());
    assert!(matches!(state.list_apps("A", false), Ok(AppListing::Ask)));
}

#[test]
fn phones_that_leave_are_told_in_order() {
    let mut state = fresh();
    let ready = |s: &str| phone(s, "", DeviceState::Ready);
    state.refresh_devices(Ok(vec![ready("c"), ready("a"), ready("b")]), "t1");
    let sweep = state.refresh_devices(Ok(vec![]), "t2");
    assert_eq!(sweep.gone, ["a", "b", "c"]);
    assert!(state.list_devices().is_empty());
}

#[test]
fn where_adb_cannot_be_asked_nothing_changes() {
    let mut state = fresh();
    state.refresh_devices(Ok(vec![phone("A", "x", DeviceState::Ready)]), "t1");
    for err in [AdbError::Missing, AdbError::TimedOut, AdbError::Failed("x".to_string())] {
        let sweep = state.refresh_devices(Err(err), "t2");
        assert!(sweep.effects.is_empty() && sweep.arrived.is_empty() && sweep.gone.is_empty());
    }
    assert_eq!(state.list_devices().len(), 1);
}

#[test]
fn a_network_device_without_a_model_gets_its_recorded_name() {
    let mut registry = Registry::default();
    registry.remember("172.19.30.45:5555", "motorola edge 40", "", "t0");
    let mut state: State<u32> = State::new(registry);
    let list = || parse_devices("172.19.30.45:5555 device\n");
    let sweep = state.refresh_devices(Ok(list()), "t1");
    assert_eq!(arrived(&sweep.arrived), [("172.19.30.45:5555", "motorola edge 40")]);
    let device = state.device("172.19.30.45:5555").unwrap();
    assert!(device.trusted);
    assert_eq!(device.model, "motorola edge 40");
    let known = state.registry.get("172.19.30.45:5555").unwrap();
    assert_eq!(known.last_address, "172.19.30.45:5555");
    assert_eq!(known.first_seen, "t0");
    // The name that the person chose comes first.
    assert!(state.set_alias("172.19.30.45:5555", "Mi teléfono"));
    state.refresh_devices(Ok(list()), "t2");
    assert_eq!(state.device("172.19.30.45:5555").unwrap().model, "Mi teléfono");
    // But it is not recorded as the model, which shows again without it.
    let known = state.registry.get("172.19.30.45:5555").unwrap();
    assert_eq!(known.model, "motorola edge 40");
    assert_eq!(known.alias, "Mi teléfono");
    assert!(state.set_alias("172.19.30.45:5555", ""));
    state.refresh_devices(Ok(list()), "t3");
    assert_eq!(state.device("172.19.30.45:5555").unwrap().model, "motorola edge 40");
}

#[test]
fn a_new_address_of_a_known_phone_is_stored() {
    let mut registry = Registry::default();
    registry.remember("A", "edge", "host:1", "t0");
    let mut state: State<u32> = State::new(registry);
    let at = |address: &str| {
        let mut device = phone("A", "edge", DeviceState::Ready);
        device.address = address.to_string();
        Ok(vec![device])
    };
    assert!(state.refresh_devices(at("host:1"), "t1").effects.is_empty());
    let sweep = state.refresh_devices(at("host:2"), "t2");
    assert_eq!(sweep.effects.len(), 1);
    match &sweep.effects[0] {
        Effect::Save(list) => {
            assert_eq!(list.get("A").unwrap().last_address, "host:2");
            assert_eq!(list.get("A").unwrap().first_seen, "t0");
        }
        Effect::Changed(_) => panic!("its state is the same"),
    }
    // A new model is stored too, and a silent phone changes nothing.
    let sweep = state.refresh_devices(Ok(vec![phone("A", "edge 50", DeviceState::Ready)]), "t3");
    assert!(matches!(&sweep.effects[0], Effect::Save(l) if l.get("A").unwrap().model == "edge 50"));
    let sweep = state.refresh_devices(Ok(vec![phone("A", "", DeviceState::Ready)]), "t4");
    assert!(sweep.effects.is_empty());
    assert_eq!(state.registry.get("A").unwrap().last_address, "host:2");
}

#[test]
fn a_phone_listed_in_two_states_is_told_as_changed_each_time() {
    let list = || Ok(vec![phone("A", "x", DeviceState::Ready), phone("A", "x", DeviceState::Offline)]);
    let mut state = fresh();
    let sweep = state.refresh_devices(list(), "t1");
    assert_eq!(sweep.arrived.len(), 2);
    assert!(state.device("A").unwrap().trusted);
    let sweep = state.refresh_devices(list(), "t2");
    assert_eq!(sweep.effects.len(), 1);
    assert!(matches!(&sweep.effects[0], Effect::Changed(d) if d.state == DeviceState::Ready));
}

#[test]
fn a_request_for_an_unknown_serial_names_it() {
    let state = fresh();
    let message = "no hay ningún dispositivo con el serial ZZ";
    assert_eq!(state.device("ZZ").unwrap_err(), message);
    assert_eq!(state.readable_device("ZZ").unwrap_err(), message);
    assert_eq!(state.list_apps("ZZ", false).err().unwrap(), message);
    assert_eq!(state.launch_app("ZZ", "a.b").err().unwrap(), message);
}

#[test]
fn a_request_for_a_phone_that_is_not_ready_says_its_state() {
    let mut state = fresh();
    let list = vec![
        phone("U", "", DeviceState::Unauthorized),
        phone("C", "", DeviceState::Connecting),
        phone("O", "", DeviceState::Offline),
    ];
    state.refresh_devices(Ok(list), "t");
    let prompt = "el teléfono todavía no aceptó la depuración USB: mirá la pantalla del dispositivo";
    assert_eq!(state.list_apps("U", false).err().unwrap(), prompt);
    assert_eq!(state.launch_app("U", "a.b").err().unwrap(), "el dispositivo está unauthorized");
    assert_eq!(state.list_apps("C", true).err().unwrap(), "el dispositivo está connecting");
    assert_eq!(state.ready_device("O").unwrap_err(), "el dispositivo está offline");
    assert_eq!(state.readable_device("O").unwrap_err(), "el dispositivo está offline");
}

#[test]
fn apps_are_answered_from_what_is_kept() {
    let mut state = fresh();
    state.refresh_devices(Ok(vec![phone("A", "x", DeviceState::Ready)]), "t");
    assert!(matches!(state.list_apps("A", false), Ok(AppListing::Ask)));
    let apps = state.store_apps("A", vec![("a.b".to_string(), "App".to_string(), true)]);
    assert_eq!(apps[0].package, "a.b");
    assert_eq!(apps[0].label, "App");
    assert!(apps[0].system);
    assert_eq!(apps[0].icon, "");
    match state.list_apps("A", false) {
        Ok(AppListing::Cached(kept)) => assert_eq!(kept, apps),
        _ => panic!("the apps are known"),
    }
    // A refresh asks the phone in any case.
    assert!(matches!(state.list_apps("A", true), Ok(AppListing::Ask)));
}

#[test]
fn an_app_opens_under_its_label() {
    let mut state = fresh();
    state.refresh_devices(Ok(vec![phone("A", "x", DeviceState::Ready)]), "t");
    match state.launch_app("A", "a.b").unwrap() {
        AppLaunch::Spawn { args, label } => {
            assert_eq!(label, "a.b");
            assert!(args.contains(&"--window-title=a.b".to_string()));
        }
        AppLaunch::AlreadyOpen(_) => panic!("no window is open"),
    }
    let app = |label: &str| ("a.b".to_string(), label.to_string(), false);
    state.store_apps("A", vec![("c.d".to_string(), "Otra".to_string(), false), app("Una"), app("Dos")]);
    match state.launch_app("A", "a.b").unwrap() {
        AppLaunch::Spawn { args, label } => {
            assert_eq!(label, "Una");
            assert_eq!(args[1], "A");
            assert!(args.contains(&"--window-title=Una".to_string()));
            assert!(args.contains(&"--video-bit-rate=16M".to_string()));
        }
        AppLaunch::AlreadyOpen(_) => panic!("no window is open"),
    }
    state.windows.opened("A", "a.b", "Una", Some(9), 1);
    assert!(matches!(state.launch_app("A", "a.b"), Ok(AppLaunch::AlreadyOpen(9))));
    let running = state.list_running();
    assert_eq!(running.len(), 1);
    assert_eq!(running[0].label, "Una");
    assert_eq!(running[0].pid, 9);
}

#[test]
fn known_devices_are_listed_under_the_name_to_show() {
    let mut state = fresh();
    state.refresh_devices(
        Ok(vec![phone("B", "edge", DeviceState::Ready), phone("A", "pixel", DeviceState::Ready)]),
        "t1",
    );
    assert!(state.set_alias("B", "Mío"));
    assert!(!state.set_alias("Z", "Nadie"));
    state.refresh_devices(Ok(vec![]), "t2");
    let row = |a: &str, b: &str| (a.to_string(), b.to_string(), "t1".to_string(), String::new());
    assert_eq!(state.list_known_devices(), vec![row("A", "pixel"), row("B", "Mío")]);
    assert!(state.forget_device("B"));
    assert!(!state.forget_device("B"));
    assert_eq!(state.list_known_devices(), vec![row("A", "pixel")]);
}

#[test]
fn devices_are_listed_once_each_by_serial() {
    let mut state = fresh();
    let list = vec![
        phone("B", "x", DeviceState::Ready),
        phone("A", "y", DeviceState::Offline),
        phone("B", "z", DeviceState::Ready),
    ];
    state.refresh_devices(Ok(list), "t");
    let listed = state.list_devices();
    assert_eq!(listed.len(), 2);
    assert_eq!((listed[0].serial.as_str(), listed[0].model.as_str()), ("A", "y"));
    assert_eq!((listed[1].serial.as_str(), listed[1].model.as_str()), ("B", "z"));
}

#[test]
fn an_arrival_is_announced_while_the_phone_is_there() {
    let mut state = fresh();
    state.refresh_devices(
        Ok(vec![phone("A", "x", DeviceState::Ready), phone("O", "y", DeviceState::Offline)]),
        "t",
    );
    let (device, notification) = state.announce("A", "edge").unwrap();
    assert_eq!(device.serial, "A");
    assert_eq!(notification.unwrap().summary, "edge conectado");
    let (_, notification) = state.announce("O", "y").unwrap();
    assert!(notification.is_none());
    assert!(state.announce("Z", "z").is_none());
}

#[test]
fn the_windows_that_stay_open_belong_to_phones_in_sight() {
    let mut state = fresh();
    let ready = |s: &str| phone(s, "", DeviceState::Ready);
    state.refresh_devices(Ok(vec![ready("A"), ready("B"), ready("C")]), "t1");
    state.windows.opened("A", "a.b", "x", Some(1), 1);
    state.windows.opened("B", "a.b", "x", Some(2), 2);
    state.windows.opened("C", "a.b", "x", Some(3), 3);
    let sweep = state.refresh_devices(Ok(vec![ready("B")]), "t2");
    assert_eq!(sweep.gone, ["A", "C"]);
    let running = state.list_running();
    assert_eq!(running.len(), 1);
    assert!(state.device(&running[0].serial).is_ok());
}

fn told(farewells: &[Farewell<u32>]) -> Vec<String> {
    farewells
        .iter()
        .map(|f| match f {
            Farewell::Close { serial, package, child } => format!("{serial} {package} {child}"),
            Farewell::Removed { serial } => format!("{serial} gone"),
        })
        .collect()
}

#[test]
fn apps_are_told_closed_before_their_phone_is_told_gone() {
    let mut state = fresh();
    let ready = |s: &str| phone(s, "", DeviceState::Ready);
    state.refresh_devices(Ok(vec![ready("A"), ready("B"), ready("C")]), "t1");
    state.windows.opened("C", "a.b", "x", Some(1), 1);
    state.windows.opened("A", "a.b", "x", Some(2), 2);
    state.windows.opened("B", "a.b", "x", Some(3), 3);
    state.windows.opened("C", "c.d", "y", Some(4), 4);
    let sweep = state.refresh_devices(Ok(vec![ready("B")]), "t2");
    assert_eq!(told(&sweep.farewells), ["A a.b 2", "A gone", "C a.b 1", "C c.d 4", "C gone"]);
    let sweep = state.refresh_devices(Err(AdbError::TimedOut), "t3");
    assert!(sweep.farewells.is_empty());
    assert_eq!(state.windows.len(), 1);
}

#[test]
fn the_windows_of_a_phone_are_closed_once() {
    let mut state = fresh();
    state.windows.opened("A", "a.b", "x", Some(1), 1);
    state.windows.opened("B", "a.b", "x", Some(2), 2);
    let name = |s: &str| s.to_string();
    let parted = state.close_gone(&vec![name("A"), name("Z"), name("A")]);
    assert_eq!(
        parted,
        vec![(name("A"), vec![(name("a.b"), 1)]), (name("Z"), vec![]), (name("A"), vec![])]
    );
    assert_eq!(state.list_running()[0].serial, "B");
    assert_eq!(told(&farewells(parted)), ["A a.b 1", "A gone", "Z gone", "A gone"]);
}

#[test]
fn a_phone_that_is_not_ready_is_waited_for() {
    let mut state = fresh();
    assert!(!state.any_waiting());
    state.refresh_devices(Ok(vec![phone("A", "", DeviceState::Ready)]), "t1");
    assert!(!state.any_waiting());
    let both = vec![phone("A", "", DeviceState::Ready), phone("B", "", DeviceState::Unauthorized)];
    state.refresh_devices(Ok(both), "t2");
    assert!(state.any_waiting());
}
