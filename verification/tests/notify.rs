use vasak_connect::notify::{greet, send, PHONE_ICON};
use vasak_connect::protocol::DeviceState;

#[test]
fn a_notification_is_new_and_lasts_five_seconds() {
    let n = send("summary", "body", PHONE_ICON);
    assert_eq!(n.app_name, "VasakOS");
    assert_eq!(n.replaces_id, 0);
    assert_eq!(n.icon, PHONE_ICON);
    assert_eq!(n.summary, "summary");
    assert_eq!(n.body, "body");
    assert_eq!(n.timeout, 5000);
}

#[test]
fn the_greeting_depends_on_the_state() {
    let ready = greet("edge", DeviceState::Ready).unwrap();
    assert_eq!(ready.summary, "edge conectado");
    assert_eq!(ready.body, "Sus aplicaciones ya están disponibles en el menú.");
    let waiting = greet("edge", DeviceState::Unauthorized).unwrap();
    assert_eq!(waiting.summary, "edge conectado");
    assert_eq!(
        waiting.body,
        "Aceptá la depuración USB en la pantalla del teléfono para poder usar sus aplicaciones."
    );
    assert!(greet("edge", DeviceState::Connecting).is_none());
    assert!(greet("edge", DeviceState::Offline).is_none());
}
