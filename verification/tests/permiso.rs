use std::time::Duration;

use vasak_connect::permiso::{puede_usar_la_camara, Reply, ESPERA, RECURSO};

/// The resource has to be one that the service knows: another would be refused
/// as unknown, and no screen would offer to unlock the camera.
#[test]
fn el_recurso_es_el_que_el_servicio_nombra() {
    assert_eq!(RECURSO, "camera");
}

/// The wait is bounded, and not short.
#[test]
fn la_espera_da_tiempo_a_leer_pero_no_es_infinita() {
    assert!(Duration::from_secs(ESPERA) >= Duration::from_secs(30));
    assert!(Duration::from_secs(ESPERA) <= Duration::from_secs(300));
}

#[test]
fn only_a_yes_turns_the_camera_on() {
    assert_eq!(puede_usar_la_camara(Reply::Answered(true)), Ok(()));
    assert_eq!(
        puede_usar_la_camara(Reply::Answered(false)),
        Err("no se permitió usar la cámara del teléfono".to_string())
    );
    assert_eq!(
        puede_usar_la_camara(Reply::TimedOut),
        Err("el permiso de cámara no se contestó a tiempo".to_string())
    );
    assert_eq!(
        puede_usar_la_camara(Reply::NoBus("x".to_string())),
        Err("no se pudo hablar con el servicio de permisos: x".to_string())
    );
    assert_eq!(
        puede_usar_la_camara(Reply::CallFailed("y".to_string())),
        Err("no se pudo consultar el permiso de cámara: y".to_string())
    );
    assert_eq!(
        puede_usar_la_camara(Reply::Unexpected("z".to_string())),
        Err("respuesta inesperada del servicio de permisos: z".to_string())
    );
}
