use vasak_connect::adb::{
    answer, apps_reported, devices, devices_call, list_apps, list_apps_call, looks_like_package,
    parse_apps, parse_devices, run_answer, start_server, start_server_call, AdbError,
    CALL_TIMEOUT, LIST_APPS_TIMEOUT,
};
use vasak_connect::process::{IoError, Output, Run};
use vasak_connect::protocol::{DeviceState, Transport};

fn ended(success: bool, stdout: &[u8], stderr: &[u8]) -> Run {
    Run::Ended(Output {
        success,
        status: "exit status: 1".to_string(),
        stdout: stdout.to_vec(),
        stderr: stderr.to_vec(),
    })
}

fn not_run(not_found: bool) -> Run {
    Run::NotRun(IoError { not_found, message: "Permission denied (os error 13)".to_string() })
}

#[test]
fn reads_a_usb_device() {
    let out = "List of devices attached\n\
               ZY22HB6KPB             device usb:1-2 product:lyriq_g model:motorola_edge_40 device:lyriq\n";
    let devices = parse_devices(out);
    assert_eq!(devices.len(), 1);
    assert_eq!(devices[0].serial, "ZY22HB6KPB");
    assert_eq!(devices[0].model, "motorola edge 40");
    assert_eq!(devices[0].transport, Transport::Usb);
    assert_eq!(devices[0].state, DeviceState::Ready);
}

#[test]
fn a_phone_waiting_for_the_prompt_is_not_an_error() {
    let devices = parse_devices("List of devices attached\nZY22HB6KPB   unauthorized usb:1-2\n");
    assert_eq!(devices[0].state, DeviceState::Unauthorized);
}

#[test]
fn network_devices_carry_their_address() {
    let devices = parse_devices("List of devices attached\n172.19.30.45:5555 device model:motorola_edge_40\n");
    assert_eq!(devices[0].transport, Transport::Tcp);
    assert_eq!(devices[0].address, "172.19.30.45:5555");
}

#[test]
fn ignores_the_daemon_notice() {
    // adb prints this on stdout the first time it starts the server.
    let devices = parse_devices("* daemon not running; starting now at tcp:5037\n* daemon started successfully\nList of devices attached\n");
    assert!(devices.is_empty());
}

#[test]
fn reads_apps_on_one_line() {
    let apps = parse_apps(" * Ajustes                        com.android.settings\n - Telegram   org.telegram.messenger\n");
    assert_eq!(apps.len(), 2);
    assert_eq!(apps[0], ("com.android.settings".into(), "Ajustes".into(), true));
    assert_eq!(apps[1], ("org.telegram.messenger".into(), "Telegram".into(), false));
}

#[test]
fn reads_an_app_whose_label_pushed_the_package_to_the_next_line() {
    let apps = parse_apps(
        " * Accesibilidad con interruptores\n                                  com.google.android.accessibility.switchaccess\n",
    );
    assert_eq!(apps.len(), 1);
    assert_eq!(apps[0].0, "com.google.android.accessibility.switchaccess");
    assert_eq!(apps[0].1, "Accesibilidad con interruptores");
    assert!(apps[0].2);
}

#[test]
fn skips_the_banner_scrcpy_prints_first() {
    let apps = parse_apps(
        "[server] INFO: Device: [motorola] motorola motorola edge 40 (Android 15)\n\
         [server] INFO: List of apps:\n\
         - Firefox  org.mozilla.firefox\n",
    );
    assert_eq!(apps.len(), 1);
    assert_eq!(apps[0].0, "org.mozilla.firefox");
}

#[test]
fn a_label_with_spaces_survives() {
    let apps = parse_apps(" - Google Play Store   com.android.vending\n");
    assert_eq!(apps[0].1, "Google Play Store");
}

#[test]
fn every_word_of_adb_has_a_state() {
    let devices = parse_devices("A device\nB unauthorized\nC offline\nD recovery\nE connecting\n");
    let states: Vec<DeviceState> = devices.iter().map(|d| d.state).collect();
    assert_eq!(
        states,
        vec![
            DeviceState::Ready,
            DeviceState::Unauthorized,
            DeviceState::Offline,
            DeviceState::Connecting,
            DeviceState::Connecting,
        ]
    );
}

#[test]
fn a_port_is_what_makes_an_address() {
    let devices = parse_devices("host:65535 device\nhost:65536 device\nhost:abc device\n[fe80::1]:5555 device\nplain device\na: device\n");
    let over_tcp: Vec<bool> = devices.iter().map(|d| d.transport == Transport::Tcp).collect();
    assert_eq!(over_tcp, vec![true, false, false, true, false, false]);
    assert_eq!(devices[0].address, "host:65535");
    assert_eq!(devices[0].serial, "host:65535");
    assert_eq!(devices[1].address, "");
    assert_eq!(devices[1].serial, "host:65536");
    assert!(devices.iter().all(|d| !d.trusted));
}

#[test]
fn a_line_with_one_word_is_no_device() {
    assert!(parse_devices("\n   \nZY22HB6KPB\n").is_empty());
}

#[test]
fn the_last_model_of_a_line_counts() {
    let devices = parse_devices("A device model:one_two model:three\r\n");
    assert_eq!(devices[0].model, "three");
    assert_eq!(parse_devices("A device usb:1-2")[0].model, "");
}

#[test]
fn a_label_without_a_package_is_dropped() {
    let apps = parse_apps(" - Huérfana\n - Firefox  org.mozilla.firefox\n");
    assert_eq!(apps, vec![("org.mozilla.firefox".to_string(), "Firefox".to_string(), false)]);
    // A package that follows no label is none either.
    assert!(parse_apps("org.mozilla.firefox\n").is_empty());
    assert!(parse_apps(" - Huérfana\n\norg.mozilla.firefox\n").is_empty());
}

#[test]
fn a_wrapped_label_gives_the_same_app_as_one_line() {
    let one = parse_apps("  * Mi app favorita \t org.mi.app\n");
    let two = parse_apps("  * Mi app favorita\n \t org.mi.app\n");
    assert_eq!(one, two);
    assert_eq!(one, vec![("org.mi.app".to_string(), "Mi app favorita".to_string(), true)]);
}

#[test]
fn the_shape_of_a_package() {
    assert!(looks_like_package("org.mozilla.firefox"));
    assert!(looks_like_package("a-b_c.D9"));
    assert!(looks_like_package("."));
    assert!(!looks_like_package(""));
    assert!(!looks_like_package("firefox"));
    assert!(!looks_like_package("org mozilla.firefox"));
    assert!(!looks_like_package("org.mozílla"));
}

#[test]
fn the_calls_are_the_documented_ones() {
    let call = start_server_call();
    assert_eq!(call.program, "adb");
    assert_eq!(call.args, ["start-server"]);
    assert_eq!(call.limit, CALL_TIMEOUT);
    let call = devices_call();
    assert_eq!(call.program, "adb");
    assert_eq!(call.args, ["devices", "-l"]);
    assert_eq!(call.limit, 20);
    let call = list_apps_call("ZY22HB6KPB");
    assert_eq!(call.program, "scrcpy");
    assert_eq!(call.args, ["-s", "ZY22HB6KPB", "--list-apps"]);
    assert_eq!(call.limit, LIST_APPS_TIMEOUT);
    assert_eq!(LIST_APPS_TIMEOUT, 90);
}

#[test]
fn a_run_that_ended_well_is_read() {
    assert!(start_server(ended(true, b"", b"* daemon started")).is_ok());
    let seen = devices(ended(true, b"List of devices attached\nA device\n", b"")).unwrap();
    assert_eq!(seen.len(), 1);
    let apps = list_apps(ended(true, b" - Telegram   org.telegram.messenger\n", b"")).unwrap();
    assert_eq!(apps[0].1, "Telegram");
}

#[test]
fn bytes_that_are_no_text_are_replaced() {
    // 0xff is never part of UTF-8.
    assert_eq!(run_answer(ended(true, b"a\xffb", b"")).unwrap(), "a\u{fffd}b");
    assert_eq!(run_answer(ended(true, "tel\u{e9}fono".as_bytes(), b"")).unwrap(), "teléfono");
}

#[test]
fn a_failure_carries_the_words_of_adb_or_its_status() {
    let said = run_answer(ended(false, b"", b"  error: no devices\n")).unwrap_err();
    assert_eq!(said.message(), "adb falló: error: no devices");
    let silent = devices(ended(false, b"A device\n", b" \n")).unwrap_err();
    assert_eq!(silent.message(), "adb falló: código exit status: 1");
    assert!(matches!(start_server(ended(false, b"", b"")), Err(AdbError::Failed(_))));
}

#[test]
fn a_failed_list_of_apps_carries_only_the_words_of_scrcpy() {
    assert_eq!(list_apps(ended(false, b"", b" nope ")).unwrap_err().message(), "adb falló: nope");
    assert_eq!(list_apps(ended(false, b"", b"")).unwrap_err().message(), "adb falló: ");
}

#[test]
fn a_program_that_did_not_run_says_why() {
    assert_eq!(devices(not_run(true)).unwrap_err().message(), "adb no está instalado");
    assert_eq!(
        devices(not_run(false)).unwrap_err().message(),
        "no se pudo ejecutar adb: Permission denied (os error 13)"
    );
    assert_eq!(devices(Run::TimedOut).unwrap_err().message(), "adb no respondió a tiempo");
    assert!(matches!(list_apps(not_run(true)), Err(AdbError::Missing)));
    assert!(matches!(list_apps(not_run(false)), Err(AdbError::Io(_))));
    assert!(matches!(list_apps(Run::TimedOut), Err(AdbError::TimedOut)));
}

#[test]
fn answers_depend_on_success_alone() {
    assert_eq!(answer(true, "exit status: 0", "x".to_string(), "warning").unwrap(), "x");
    assert!(answer(false, "exit status: 2", "x".to_string(), "").is_err());
    assert!(apps_reported(true, "", "warning").unwrap().is_empty());
    assert!(apps_reported(false, " - A  b.c\n", "").is_err());
}

#[test]
fn the_next_line_decides_what_the_package_is() {
    let apps = parse_apps(
        " * Reservas de hoteles en Booking.com\n                                   com.booking\n",
    );
    assert_eq!(
        apps,
        vec![("com.booking".to_string(), "Reservas de hoteles en Booking.com".to_string(), true)]
    );
    // With the package on its own line the label can be anything but empty.
    let apps = parse_apps(" - Booking.com\n   com.booking\n - Otra  c.d\n");
    assert_eq!(
        apps,
        vec![
            ("com.booking".to_string(), "Booking.com".to_string(), false),
            ("c.d".to_string(), "Otra".to_string(), false),
        ]
    );
    // On one line the last word is the package.
    let apps = parse_apps(" - Hoteles en Booking.com   com.booking\n");
    assert_eq!(apps[0], ("com.booking".to_string(), "Hoteles en Booking.com".to_string(), false));
}
