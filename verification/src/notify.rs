//! Telling the person a phone showed up.
//!
//! Goes through the ordinary freedesktop notification interface. No special
//! channel: a notification from this service should look and behave like every
//! other one.

use vstd::prelude::*;

use crate::protocol::DeviceState;

verus! {

broadcast use vstd::string::group_string_axioms;

pub const NOTIFICATIONS: &'static str = "org.freedesktop.Notifications";

pub const NOTIFICATIONS_PATH: &'static str = "/org/freedesktop/Notifications";

pub const PHONE_ICON: &'static str = "phone";

/// The arguments of the call `Notify` that are not empty.
#[derive(Debug, PartialEq, Eq)]
pub struct Notification {
    pub app_name: String,
    /// 0 is a new notification rather than a replacement.
    pub replaces_id: u32,
    pub icon: String,
    pub summary: String,
    pub body: String,
    /// In milliseconds.
    pub timeout: i32,
}

pub struct NotificationView {
    pub app_name: Seq<char>,
    pub replaces_id: u32,
    pub icon: Seq<char>,
    pub summary: Seq<char>,
    pub body: Seq<char>,
    pub timeout: i32,
}

impl View for Notification {
    type V = NotificationView;

    open spec fn view(&self) -> NotificationView {
        NotificationView {
            app_name: self.app_name@,
            replaces_id: self.replaces_id,
            icon: self.icon@,
            summary: self.summary@,
            body: self.body@,
            timeout: self.timeout,
        }
    }
}

/// What is sent to show a summary and a text.
pub open spec fn notification(
    summary: Seq<char>,
    body: Seq<char>,
    icon: Seq<char>,
) -> NotificationView {
    NotificationView {
        app_name: "VasakOS"@,
        replaces_id: 0,
        icon,
        summary,
        body,
        timeout: 5000,
    }
}

/// What is sent to show a summary and a text.
pub fn send(summary: &str, body: &str, icon: &str) -> (r: Notification)
    ensures
        r@ == notification(summary@, body@, icon@),
{
    Notification {
        app_name: "VasakOS".to_owned(),
        replaces_id: 0,
        icon: icon.to_owned(),
        summary: summary.to_owned(),
        body: body.to_owned(),
        timeout: 5000,
    }
}

/// What to tell the person about a phone that showed up in a state: nothing
/// while it can neither be used nor needs anything from them.
pub open spec fn greeting(model: Seq<char>, state: DeviceState) -> Option<NotificationView> {
    match state {
        DeviceState::Unauthorized => Some(
            notification(
                model + " conectado"@,
                "Aceptá la depuración USB en la pantalla del teléfono para poder usar sus aplicaciones."@,
                PHONE_ICON@,
            ),
        ),
        DeviceState::Ready => Some(
            notification(
                model + " conectado"@,
                "Sus aplicaciones ya están disponibles en el menú."@,
                PHONE_ICON@,
            ),
        ),
        DeviceState::Connecting => None,
        DeviceState::Offline => None,
    }
}

/// What an optional notification says.
pub open spec fn notification_view(n: Option<Notification>) -> Option<NotificationView> {
    match n {
        Some(n) => Some(n@),
        None => None,
    }
}

/// What to tell the person about a phone that showed up.
pub fn greet(model: &str, state: DeviceState) -> (r: Option<Notification>)
    ensures
        notification_view(r) == greeting(model@, state),
{
    let summary = model.to_owned().concat(" conectado");
    match state {
        DeviceState::Unauthorized => Some(
            send(
                summary.as_str(),
                "Aceptá la depuración USB en la pantalla del teléfono para poder usar sus aplicaciones.",
                PHONE_ICON,
            ),
        ),
        DeviceState::Ready => Some(
            send(
                summary.as_str(),
                "Sus aplicaciones ya están disponibles en el menú.",
                PHONE_ICON,
            ),
        ),
        DeviceState::Connecting => None,
        DeviceState::Offline => None,
    }
}

/// The person is told of a phone that is ready and of one that waits for them, by its
/// model and with what to do, and of no other.
pub proof fn law_the_greeting_fits_the_state(model: Seq<char>, state: DeviceState)
    ensures
        greeting(model, state) is Some <==> state == DeviceState::Ready || state
            == DeviceState::Unauthorized,
        greeting(model, state) matches Some(n) ==> {
            &&& n.app_name == "VasakOS"@
            &&& n.replaces_id == 0
            &&& n.icon == "phone"@
            &&& n.summary == model + " conectado"@
            &&& n.timeout == 5000
            &&& state == DeviceState::Ready ==> n.body
                == "Sus aplicaciones ya están disponibles en el menú."@
            &&& state == DeviceState::Unauthorized ==> n.body
                == "Aceptá la depuración USB en la pantalla del teléfono para poder usar sus aplicaciones."@
        },
{
}

/// A notification is all of its fields.
pub proof fn law_every_part_of_a_notification_counts(n: Notification)
    ensures
        n@.app_name == n.app_name@,
        n@.replaces_id == n.replaces_id,
        n@.icon == n.icon@,
        n@.summary == n.summary@,
        n@.body == n.body@,
        n@.timeout == n.timeout,
        notification_view(Some(n)) == Some(n@),
        notification_view(None) is None,
{
}

} // verus!
