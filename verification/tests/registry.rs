use vasak_connect::registry::{KnownDevice, Registry, SaveStep, Stored};

fn bytes(s: &str) -> Option<Vec<u8>> {
    Some(s.as_bytes().to_vec())
}

#[test]
fn remembering_twice_keeps_the_first_sighting() {
    let mut registry = Registry::default();
    registry.remember("ZY22HB6KPB", "motorola edge 40", "", "2026-08-13T10:00:00Z");
    registry.remember("ZY22HB6KPB", "motorola edge 40", "", "2026-09-01T10:00:00Z");
    assert_eq!(registry.get("ZY22HB6KPB").unwrap().first_seen, "2026-08-13T10:00:00Z");
}

#[test]
fn an_empty_model_does_not_erase_a_known_one() {
    // A device seen over TCP may report no model; that is not a reason to
    // forget the name shown in the settings screen.
    let mut registry = Registry::default();
    registry.remember("ZY22HB6KPB", "motorola edge 40", "", "2026-08-13T10:00:00Z");
    registry.remember("ZY22HB6KPB", "", "172.19.30.45:5555", "2026-08-13T11:00:00Z");
    let device = registry.get("ZY22HB6KPB").unwrap();
    assert_eq!(device.model, "motorola edge 40");
    assert_eq!(device.last_address, "172.19.30.45:5555");
}

#[test]
fn forgetting_reports_whether_there_was_anything_to_forget() {
    let mut registry = Registry::default();
    registry.remember("A", "x", "", "now");
    assert!(registry.forget("A"));
    assert!(!registry.forget("A"));
}

#[test]
fn an_alias_goes_only_to_a_known_device() {
    let mut registry = Registry::default();
    assert!(!registry.set_alias("A", "Mi teléfono"));
    assert!(!registry.is_known("A"));
    registry.remember("A", "x", "host:1", "now");
    assert!(registry.set_alias("A", "Mi teléfono"));
    let device = registry.get("A").unwrap();
    assert_eq!(device.alias, "Mi teléfono");
    assert_eq!(device.model, "x");
    assert_eq!(device.last_address, "host:1");
    assert_eq!(device.shown(), "Mi teléfono");
    // Seeing the device again leaves its alias alone.
    registry.remember("A", "y", "", "later");
    assert_eq!(registry.get("A").unwrap().alias, "Mi teléfono");
    assert!(registry.set_alias("A", ""));
    assert_eq!(registry.get("A").unwrap().shown(), "y");
}

#[test]
fn a_forgotten_device_is_new_again() {
    let mut registry = Registry::default();
    registry.remember("A", "x", "host:1", "first");
    registry.set_alias("A", "Mía");
    registry.forget("A");
    registry.remember("A", "", "", "second");
    let device = registry.get("A").unwrap();
    assert_eq!(device.first_seen, "second");
    assert_eq!(device.model, "");
    assert_eq!(device.alias, "");
    assert_eq!(device.last_address, "");
    assert!(device.favourites.is_empty());
}

#[test]
fn devices_are_listed_in_the_order_of_their_serials() {
    let mut registry = Registry::default();
    for serial in ["b", "a", "ñ", "B", "ab", ""] {
        registry.remember(serial, serial, "", "now");
    }
    let serials: Vec<&str> = registry.all().iter().map(|(serial, _)| serial.as_str()).collect();
    assert_eq!(serials, ["", "B", "a", "ab", "b", "ñ"]);
}

#[test]
fn what_is_stored_is_read_back() {
    let mut registry = Registry::default();
    registry.remember("A", "x", "host:1", "first");
    registry.remember("B", "y", "", "second");
    let rows: Vec<(String, KnownDevice)> = registry
        .all()
        .iter()
        .map(|(serial, device)| (serial.to_string(), (*device).clone()))
        .collect();
    let again = Registry::load(Stored::Rows(rows));
    assert_eq!(again.all().len(), 2);
    assert_eq!(again.get("A").unwrap().last_address, "host:1");
    assert_eq!(again.get("B").unwrap().first_seen, "second");
}

#[test]
fn of_two_rows_with_one_serial_the_later_counts() {
    let row = |model: &str| KnownDevice { model: model.to_string(), ..KnownDevice::default() };
    let registry =
        Registry::from_rows(vec![("A".to_string(), row("x")), ("A".to_string(), row("y"))]);
    assert_eq!(registry.all().len(), 1);
    assert_eq!(registry.get("A").unwrap().model, "y");
}

#[test]
fn a_list_that_cannot_be_read_is_empty() {
    assert!(Registry::load(Stored::NoPlace).all().is_empty());
    assert!(Registry::load(Stored::Absent).all().is_empty());
    assert!(Registry::load(Stored::Unreadable).all().is_empty());
    assert!(Registry::load(Stored::Corrupt).all().is_empty());
}

#[test]
fn a_copy_of_the_registry_is_the_same_and_stands_alone() {
    let mut registry = Registry::default();
    registry.remember("A", "x", "", "now");
    let copy = registry.clone();
    registry.forget("A");
    assert!(copy.is_known("A"));
    assert_eq!(copy.get("A").unwrap().model, "x");
}

#[test]
fn the_list_has_its_place_in_the_configuration() {
    assert_eq!(
        Registry::path(bytes("/cfg"), bytes("/home/ana")),
        bytes("/cfg/vasak/connect.json")
    );
    assert_eq!(Registry::path(bytes("/cfg/"), None), bytes("/cfg/vasak/connect.json"));
    assert_eq!(
        Registry::path(None, bytes("/home/ana")),
        bytes("/home/ana/.config/vasak/connect.json")
    );
    assert_eq!(Registry::path(bytes(""), None), bytes("vasak/connect.json"));
    assert_eq!(Registry::path(None, None), None);
}

#[test]
fn the_path_is_the_one_that_the_system_builds() {
    for base in ["/", "/cfg", "relative", "", "/with space/"] {
        let expected = std::path::PathBuf::from(base).join("vasak").join("connect.json");
        assert_eq!(Registry::path(bytes(base), None), bytes(expected.to_str().unwrap()));
    }
}

#[test]
fn a_list_is_stored_through_a_temporary_file() {
    let mut step = Registry::save(true);
    let mut taken = vec![step];
    while step != SaveStep::Done {
        step = step.next(true);
        taken.push(step);
    }
    assert_eq!(
        taken,
        vec![
            SaveStep::CreateDirectory,
            SaveStep::Encode,
            SaveStep::WriteTemporary,
            SaveStep::Replace,
            SaveStep::Done,
        ]
    );
    assert_eq!(Registry::save(false), SaveStep::Done);
}

#[test]
fn a_step_that_fails_leaves_the_list_alone() {
    assert_eq!(SaveStep::CreateDirectory.next(false), SaveStep::Done);
    assert_eq!(SaveStep::Encode.next(false), SaveStep::Done);
    assert_eq!(SaveStep::WriteTemporary.next(false), SaveStep::Done);
    assert_eq!(SaveStep::Replace.next(false), SaveStep::RemoveTemporary);
    assert_eq!(SaveStep::RemoveTemporary.next(false), SaveStep::Done);
    assert_eq!(SaveStep::RemoveTemporary.next(true), SaveStep::Done);
}

#[test]
fn only_what_is_not_known_yet_is_learnt() {
    let mut registry = Registry::default();
    assert!(registry.learns("A", "", "", "now"));
    registry.remember("A", "edge", "host:1", "now");
    assert!(!registry.learns("A", "edge", "host:1", "later"));
    assert!(!registry.learns("A", "", "", "later"));
    assert!(registry.learns("A", "pixel", "", "later"));
    assert!(registry.learns("A", "", "host:2", "later"));
}

#[test]
fn the_temporary_file_lies_beside_the_list() {
    for base in ["/", "/cfg", "relative", "", "/with.dot/"] {
        let path = Registry::path(bytes(base), None).unwrap();
        let list = std::path::PathBuf::from(String::from_utf8(path.clone()).unwrap());
        let expected = list.with_extension("json.tmp");
        assert_eq!(Some(Registry::temporary_path(&path)), bytes(expected.to_str().unwrap()));
    }
    assert_eq!(
        Some(Registry::temporary_path(&bytes("/cfg/vasak/connect.json").unwrap())),
        bytes("/cfg/vasak/connect.json.tmp")
    );
}
