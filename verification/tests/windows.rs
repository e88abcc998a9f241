use vasak_connect::process::{ChildState, IoError};
use vasak_connect::protocol::Transport;
use vasak_connect::windows::{
    en_dp, menor_lado_dp, nueva_pantalla, Launch, SpawnError, WindowManager, ALTO_INICIAL,
    ANCHO_INICIAL, DENSIDAD,
};

/// From how many dp of smallest width Android hands out tablet resources: the
/// qualifier `sw600dp`.
const UMBRAL_TABLET_DP: u32 = 600;

/// From how many dp of width the window class of Material 3 is expanded, which
/// is where an app shows two panes instead of one.
const UMBRAL_EXPANDIDO_DP: u32 = 840;

fn args_of(launch: Launch) -> Vec<String> {
    match launch {
        Launch::Spawn(args) => args,
        Launch::AlreadyOpen(pid) => panic!("open already: {}", pid),
    }
}

#[test]
fn un_pixel_es_un_dp_en_la_densidad_base() {
    assert_eq!(en_dp(1000, 160), 1000);
    assert_eq!(en_dp(600, 160), 600);
}

#[test]
fn la_ventana_inicial_le_llega_a_android_como_tablet() {
    assert!(
        menor_lado_dp(ANCHO_INICIAL, ALTO_INICIAL, DENSIDAD) >= UMBRAL_TABLET_DP,
        "el lado menor da {} dp",
        menor_lado_dp(ANCHO_INICIAL, ALTO_INICIAL, DENSIDAD)
    );
}

#[test]
fn y_con_espacio_para_dos_paneles() {
    assert!(en_dp(ANCHO_INICIAL, DENSIDAD) >= UMBRAL_EXPANDIDO_DP);
}

#[test]
fn la_densidad_que_teniamos_dejaba_la_app_en_diseno_de_telefono() {
    // At 220 dpi the width was more than enough and the height was not, and the
    // smaller side decides.
    assert_eq!(en_dp(1000, 220), 727);
    assert_eq!(menor_lado_dp(1000, 700, 220), 509);
    assert!(menor_lado_dp(1000, 700, 220) < UMBRAL_TABLET_DP);
}

#[test]
fn a_220_dpi_habia_que_pasar_los_825_px_de_alto() {
    // Which is more than most windows measure.
    assert!(menor_lado_dp(1400, 824, 220) < UMBRAL_TABLET_DP);
    assert!(menor_lado_dp(1400, 825, 220) >= UMBRAL_TABLET_DP);
}

#[test]
fn ahora_el_umbral_cae_donde_se_lo_espera() {
    // At the base density the threshold is a round number of pixels.
    assert!(menor_lado_dp(1000, 599, DENSIDAD) < UMBRAL_TABLET_DP);
    assert!(menor_lado_dp(1000, 600, DENSIDAD) >= UMBRAL_TABLET_DP);
}

#[test]
fn el_lado_menor_no_es_siempre_el_alto() {
    // A window can be taller than wide, and then the width decides.
    assert_eq!(menor_lado_dp(500, 1200, DENSIDAD), 500);
}

#[test]
fn el_argumento_nombra_tamano_y_densidad() {
    assert_eq!(nueva_pantalla(1000, 700, 160), "--new-display=1000x700/160");
}

#[test]
fn numbers_of_any_size_are_spelled() {
    assert_eq!(nueva_pantalla(0, 4_294_967_295, 10), "--new-display=0x4294967295/10");
}

#[test]
fn the_width_in_dp_does_not_depend_on_rotation() {
    assert_eq!(menor_lado_dp(1000, 700, 220), menor_lado_dp(700, 1000, 220));
    assert!(en_dp(1001, 220) >= en_dp(1000, 220));
}

#[test]
fn a_window_over_usb() {
    let windows: WindowManager<u32> = WindowManager::new();
    let args = args_of(windows.launch("A", "org.telegram.messenger", "Telegram", Transport::Usb));
    assert_eq!(
        args,
        [
            "-s",
            "A",
            "--new-display=1000x700/160",
            "--no-vd-system-decorations",
            "--display-ime-policy=local",
            "--no-vd-destroy-content",
            "--flex-display",
            "--start-app=+org.telegram.messenger",
            "--window-title=Telegram",
            "--video-bit-rate=16M",
        ]
    );
}

#[test]
fn a_window_over_the_network_is_lighter() {
    let windows: WindowManager<u32> = WindowManager::new();
    let args = args_of(windows.launch("host:5555", "a.b", "x y", Transport::Tcp));
    assert_eq!(args[8], "--window-title=x y");
    assert_eq!(args[9..], ["--video-codec=h265", "--video-bit-rate=4M", "--max-fps=30"]);
}

#[test]
fn an_app_has_one_window() {
    let mut windows: WindowManager<u32> = WindowManager::new();
    assert_eq!(windows.opened("A", "a.b", "x", Some(41), 1), 41);
    assert!(matches!(windows.launch("A", "a.b", "x", Transport::Usb), Launch::AlreadyOpen(41)));
    assert!(matches!(windows.launch("B", "a.b", "x", Transport::Usb), Launch::Spawn(_)));
    // Recording it again takes the place of the first.
    assert_eq!(windows.opened("A", "a.b", "y", None, 2), 0);
    assert_eq!(windows.len(), 1);
    assert_eq!(windows.list()[0].label, "y");
    assert_eq!(windows.list()[0].pid, 0);
    assert_eq!(*windows.child_mut(0), 2);
}

#[test]
fn a_window_is_closed_once() {
    let mut windows: WindowManager<u32> = WindowManager::new();
    windows.opened("A", "a.b", "x", Some(41), 1);
    windows.opened("A", "c.d", "y", Some(42), 2);
    let window = windows.stop("A", "a.b").unwrap();
    assert_eq!(window.label, "x");
    assert_eq!(window.pid, 41);
    assert_eq!(window.child, 1);
    assert!(windows.stop("A", "a.b").is_none());
    assert_eq!(windows.list()[0].package, "c.d");
}

#[test]
fn a_phone_that_leaves_takes_its_windows_along() {
    let mut windows: WindowManager<u32> = WindowManager::new();
    windows.opened("A", "a.b", "x", Some(1), 10);
    windows.opened("B", "a.b", "x", Some(2), 20);
    windows.opened("A", "c.d", "y", Some(3), 30);
    let closed = windows.stop_all("A");
    assert_eq!(closed, vec![("a.b".to_string(), 10), ("c.d".to_string(), 30)]);
    assert_eq!(windows.len(), 1);
    assert_eq!(windows.list()[0].serial, "B");
    assert!(windows.stop_all("A").is_empty());
}

#[test]
fn windows_whose_process_ended_are_collected() {
    let mut windows: WindowManager<u32> = WindowManager::new();
    windows.opened("A", "a.b", "x", Some(1), 10);
    windows.opened("B", "a.b", "x", Some(2), 20);
    windows.opened("A", "c.d", "y", Some(3), 30);
    let gone = windows.reap(&vec![ChildState::Ended, ChildState::Running, ChildState::Unknown]);
    assert_eq!(
        gone,
        vec![("A".to_string(), "a.b".to_string()), ("A".to_string(), "c.d".to_string())]
    );
    assert_eq!(windows.len(), 1);
    assert_eq!(*windows.child_mut(0), 20);
    assert!(windows.reap(&vec![ChildState::Running]).is_empty());
}

#[test]
fn a_window_that_does_not_open_says_why() {
    let missing = IoError { not_found: true, message: "No such file".to_string() };
    assert_eq!(SpawnError::from(missing).message(), "scrcpy no está instalado");
    let denied = IoError { not_found: false, message: "Permission denied".to_string() };
    assert_eq!(SpawnError::from(denied).message(), "no se pudo iniciar scrcpy: Permission denied");
}
