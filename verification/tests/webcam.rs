use vasak_connect::permiso::Reply;
use vasak_connect::process::{ChildState, IoError, Output, Run};
use vasak_connect::protocol::CameraFacing;
use vasak_connect::webcam::{
    cameras_reported, is_size, list_cameras, list_cameras_call, loopback_device, parse_cameras,
    VideoDevice, WebcamBridge, WebcamError,
};

/// Verbatim from `scrcpy 4.1 --list-camera-sizes` on a motorola edge 40,
/// banner lines included, because those are exactly what a stricter parser
/// would trip over.
const REAL_OUTPUT: &str = "\
[server] INFO: Device: [motorola] motorola motorola edge 40 (Android 15)
[server] INFO: List of cameras:
    --camera-id=0    (back, 4096x3072, fps={10, 15, 20, 30, 60}, zoom-range=[1, 8])
        - 4096x3072
        - 3840x2160
        - 1280x720
    --camera-id=1    (front, 3264x2448, fps={10, 15, 20, 24, 30}, zoom-range=[1, 4])
        - 3264x2448
        - 1280x720
scrcpy 4.1 <https://github.com/Genymobile/scrcpy>
INFO: ADB device found:
INFO:     -->   (usb)  ZY22HB6KPB                      device  motorola_edge_40
";

fn video(name: &str, label: Option<&str>) -> VideoDevice {
    VideoDevice { name: name.to_string(), label: label.map(str::to_string) }
}

fn ended(success: bool, stdout: &str, stderr: &str) -> Run {
    Run::Ended(Output {
        success,
        status: "exit status: 1".to_string(),
        stdout: stdout.as_bytes().to_vec(),
        stderr: stderr.as_bytes().to_vec(),
    })
}

#[test]
fn both_cameras_are_found() {
    let cameras = parse_cameras(REAL_OUTPUT);
    assert_eq!(cameras.len(), 2);
    assert_eq!(cameras[0].id, "0");
    assert_eq!(cameras[0].facing, CameraFacing::Back);
    assert_eq!(cameras[1].id, "1");
    assert_eq!(cameras[1].facing, CameraFacing::Front);
}

#[test]
fn sizes_go_to_the_camera_they_follow() {
    let cameras = parse_cameras(REAL_OUTPUT);
    assert_eq!(cameras[0].sizes, ["4096x3072", "3840x2160", "1280x720"]);
    assert_eq!(cameras[1].sizes, ["3264x2448", "1280x720"]);
}

#[test]
fn frame_rates_come_from_the_header() {
    let cameras = parse_cameras(REAL_OUTPUT);
    assert_eq!(cameras[0].fps, [10, 15, 20, 30, 60]);
    assert_eq!(cameras[1].fps, [10, 15, 20, 24, 30]);
}

#[test]
fn the_banner_does_not_become_a_camera() {
    // "INFO: ADB device found:" and the scrcpy version line are in the
    // sample; if either were parsed we would have more than two cameras.
    assert_eq!(parse_cameras(REAL_OUTPUT).len(), 2);
}

#[test]
fn nothing_is_invented_from_empty_output() {
    assert!(parse_cameras("").is_empty());
    assert!(parse_cameras("scrcpy 4.1\nINFO: nada\n").is_empty());
}

#[test]
fn an_unknown_facing_is_external_rather_than_a_lost_camera() {
    let cameras = parse_cameras("    --camera-id=7    (periscope, 800x600, fps={30})\n");
    assert_eq!(cameras.len(), 1);
    assert_eq!(cameras[0].facing, CameraFacing::External);
    assert_eq!(cameras[0].id, "7");
}

#[test]
fn a_word_where_a_size_should_be_is_not_passed_through() {
    let cameras = parse_cameras(
        "    --camera-id=0    (back, 800x600, fps={30})\n        - unavailable\n        - 800x600\n",
    );
    assert_eq!(cameras[0].sizes, ["800x600"]);
}

#[test]
fn sizes_before_any_camera_are_dropped_instead_of_panicking() {
    assert!(parse_cameras("        - 1280x720\n").is_empty());
}

#[test]
fn a_header_without_an_id_is_no_camera() {
    assert!(parse_cameras("--camera-id=  (back, 800x600)\n- 800x600\n").is_empty());
}

#[test]
fn a_header_without_details_is_a_camera() {
    let cameras = parse_cameras("--camera-id=3\n- 640x480\n");
    assert_eq!(cameras[0].id, "3");
    assert_eq!(cameras[0].facing, CameraFacing::External);
    assert!(cameras[0].fps.is_empty());
    assert_eq!(cameras[0].sizes, ["640x480"]);
}

#[test]
fn rates_that_are_none_are_skipped() {
    let cameras = parse_cameras("--camera-id=0 (front, fps={ 10,x, 4294967296 , +24,})\n--camera-id=1 (back, fps={30\n");
    assert_eq!(cameras[0].fps, [10, 24]);
    assert!(cameras[1].fps.is_empty());
}

#[test]
fn the_shape_of_a_size() {
    assert!(is_size("1280x720"));
    assert!(is_size("1x1"));
    assert!(!is_size("1280"));
    assert!(!is_size("x720"));
    assert!(!is_size("1280x"));
    assert!(!is_size("1280x720x3"));
    assert!(!is_size("-1x720"));
    assert!(!is_size("1280X720"));
    assert!(!is_size(""));
}

#[test]
fn the_loopback_is_found_by_name() {
    let devices = vec![
        video("video0", Some("Integrated Webcam\n")),
        video("video11", Some("VasakOS Phone\n")),
        video("video7", Some("VasakOS Phone")),
        video("video1", None),
        video("radio0", Some("VasakOS Phone\n")),
    ];
    // By name, as text: "video11" comes before "video7".
    assert_eq!(loopback_device(&devices), Some("/dev/video11".to_string()));
    assert_eq!(loopback_device(&vec![video("video0", Some("VasakOS Phone 2"))]), None);
    assert_eq!(loopback_device(&Vec::new()), None);
}

#[test]
fn the_call_for_cameras_is_the_documented_one() {
    let call = list_cameras_call("ZY22HB6KPB");
    assert_eq!(call.program, "scrcpy");
    assert_eq!(call.args, ["-s", "ZY22HB6KPB", "--list-camera-sizes"]);
    assert_eq!(call.limit, 60);
}

#[test]
fn a_run_that_lists_cameras_is_read() {
    assert_eq!(list_cameras(ended(true, REAL_OUTPUT, "")).unwrap().len(), 2);
    assert!(cameras_reported(true, "exit status: 0", "", "warning").unwrap().is_empty());
}

#[test]
fn a_run_that_lists_no_cameras_says_why() {
    assert_eq!(list_cameras(ended(false, "", " broken \n")).unwrap_err().message(), "scrcpy falló: broken");
    assert_eq!(
        list_cameras(ended(false, REAL_OUTPUT, "")).unwrap_err().message(),
        "scrcpy falló: código exit status: 1"
    );
    assert_eq!(list_cameras(Run::TimedOut).unwrap_err().message(), "el teléfono no respondió a tiempo");
    let missing = IoError { not_found: true, message: "No such file".to_string() };
    assert_eq!(list_cameras(Run::NotRun(missing)).unwrap_err().message(), "scrcpy no está instalado");
    let denied = IoError { not_found: false, message: "Permission denied".to_string() };
    assert_eq!(
        list_cameras(Run::NotRun(denied)).unwrap_err().message(),
        "no se pudo ejecutar scrcpy: Permission denied"
    );
}

#[test]
fn one_stream_at_a_time() {
    let loopback = || Some("/dev/video9".to_string());
    let mut bridge: WebcamBridge<u32> = WebcamBridge::new();
    assert!(bridge.serial().is_none());
    let plan = bridge.start(loopback(), "A", "0", "1280x720", 30).unwrap();
    assert_eq!(plan.device, "/dev/video9");
    assert_eq!(
        plan.args,
        [
            "-s",
            "A",
            "--video-source=camera",
            "--camera-id=0",
            "--v4l2-sink=/dev/video9",
            "--no-window",
            "--no-video-playback",
            "--no-audio",
            "--v4l2-buffer=0",
            "--camera-size=1280x720",
            "--camera-fps=30",
        ]
    );
    bridge.started("A", "0", "1280x720", 77);
    assert_eq!(bridge.serial(), Some("A"));
    let busy = bridge.start(loopback(), "B", "1", "", 0);
    assert!(matches!(busy, Err(WebcamError::Busy)));
    assert_eq!(
        bridge.start(None, "B", "1", "", 0).err().unwrap().message(),
        "la cámara ya está en uso: un dispositivo de vídeo admite una sola fuente"
    );
    assert_eq!(bridge.stop(), Some(77));
    assert_eq!(bridge.stop(), None);
    assert!(bridge.start(loopback(), "B", "1", "", 0).is_ok());
}

#[test]
fn a_size_or_a_rate_that_is_not_asked_for_is_not_passed() {
    let bridge: WebcamBridge<u32> = WebcamBridge::new();
    let plan = bridge.start(Some("/dev/video9".to_string()), "A", "0", "", 0).unwrap();
    assert_eq!(plan.args.len(), 9);
    assert!(plan.args.iter().all(|a| !a.starts_with("--camera-size") && !a.starts_with("--camera-fps")));
}

#[test]
fn without_a_loopback_there_is_no_stream() {
    let bridge: WebcamBridge<u32> = WebcamBridge::new();
    let err = bridge.start(None, "A", "0", "", 0).err().unwrap();
    assert!(matches!(err, WebcamError::NoLoopback));
    assert_eq!(
        err.message(),
        "no hay un dispositivo de bucle de vídeo: falta cargar el módulo v4l2loopback (si acabás de actualizar el kernel, reiniciá)"
    );
}

#[test]
fn the_state_names_the_device_even_when_idle() {
    let mut bridge: WebcamBridge<u32> = WebcamBridge::new();
    let idle = bridge.state(Some("/dev/video9".to_string()));
    assert!(!idle.active);
    assert_eq!(idle.device, "/dev/video9");
    assert_eq!(idle.serial, "");
    bridge.started("A", "1", "640x480", 5);
    let busy = bridge.state(None);
    assert!(busy.active);
    assert_eq!(busy.device, "");
    assert_eq!(busy.serial, "A");
    assert_eq!(busy.camera_id, "1");
    assert_eq!(busy.size, "640x480");
}

#[test]
fn a_stream_stops_with_its_own_phone_only() {
    let mut bridge: WebcamBridge<u32> = WebcamBridge::new();
    assert_eq!(bridge.stop_if_device("A"), None);
    bridge.started("A", "0", "", 5);
    assert_eq!(bridge.stop_if_device("B"), None);
    assert_eq!(bridge.serial(), Some("A"));
    assert_eq!(bridge.stop_if_device("A"), Some(5));
    assert!(bridge.serial().is_none());
}

#[test]
fn a_stream_that_ended_on_its_own_is_noticed() {
    let mut bridge: WebcamBridge<u32> = WebcamBridge::new();
    assert!(!bridge.reap(ChildState::Ended));
    bridge.started("A", "0", "", 5);
    assert!(!bridge.reap(ChildState::Running));
    assert_eq!(bridge.child_mut().copied(), Some(5));
    assert!(bridge.reap(ChildState::Ended));
    assert!(bridge.child_mut().is_none());
    bridge.started("A", "0", "", 6);
    assert!(bridge.reap(ChildState::Unknown));
    assert!(bridge.serial().is_none());
}

#[test]
fn nothing_but_a_yes_starts_the_camera() {
    let loopback = || Some("/dev/video9".to_string());
    let mut bridge: WebcamBridge<u32> = WebcamBridge::new();
    let start = |bridge: &WebcamBridge<u32>, reply, device| {
        bridge.start_if_allowed(reply, device, "A", "0", "", 0).map(|plan| plan.device)
    };
    assert_eq!(start(&bridge, Reply::Answered(true), loopback()), Ok("/dev/video9".to_string()));
    assert_eq!(
        start(&bridge, Reply::Answered(false), loopback()),
        Err("no se permitió usar la cámara del teléfono".to_string())
    );
    assert_eq!(
        start(&bridge, Reply::TimedOut, loopback()),
        Err("el permiso de cámara no se contestó a tiempo".to_string())
    );
    assert_eq!(
        start(&bridge, Reply::Answered(true), None),
        Err(WebcamError::NoLoopback.message())
    );
    bridge.started("B", "1", "", 5);
    assert_eq!(start(&bridge, Reply::Answered(true), loopback()), Err(WebcamError::Busy.message()));
    // A refusal comes before anything else.
    assert_eq!(
        start(&bridge, Reply::Answered(false), None),
        Err("no se permitió usar la cámara del teléfono".to_string())
    );
}

#[test]
fn each_line_has_its_own_effect_on_the_cameras() {
    let head = "--camera-id=0 (back, 800x600, fps={30})\n- 800x600\n";
    let before = parse_cameras(head);
    // Neither a header nor a size.
    for other in ["INFO: nada", "", "- unavailable", "800x600", "--camera-id= (front)"] {
        assert_eq!(parse_cameras(&format!("{head}{other}\n")), before, "{:?}", other);
    }
    let with_header = parse_cameras(&format!("{head}--camera-id=1\n"));
    assert_eq!(with_header[..1], before[..]);
    assert_eq!(with_header[1].id, "1");
    assert!(with_header[1].sizes.is_empty());
    let with_size = parse_cameras(&format!("{head}- 640x480\n"));
    assert_eq!(with_size.len(), 1);
    assert_eq!(with_size[0].sizes, ["800x600", "640x480"]);
}
