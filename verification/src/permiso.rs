//! Asking before the phone's camera is turned on.
//!
//! The service of permissions identifies the caller by its executable, so the
//! decision it keeps is "the desktop may use the phone's camera". It lives on
//! the **system** bus.

use vstd::prelude::*;

verus! {

broadcast use vstd::string::group_string_axioms;

/// The resource, as the service of permissions names it.
pub const RECURSO: &'static str = "camera";

pub const PERMISSIONS_SERVICE: &'static str = "ar.net.vasak.os.Permissions";

pub const PERMISSIONS_PATH: &'static str = "/ar/net/vasak/os/Permissions";

/// How many seconds an answer is waited for.
///
/// Generous on purpose: the first time, somebody is reading a dialog. But
/// bounded: a session without an agent would leave the call hanging forever.
pub const ESPERA: u64 = 120;

/// What came of asking for the permission. An error is given in words.
pub enum Reply {
    /// The system bus cannot be reached.
    NoBus(String),
    /// Nobody answered in time.
    TimedOut,
    /// The call failed.
    CallFailed(String),
    /// The answer is neither yes nor no.
    Unexpected(String),
    Answered(bool),
}

/// Why the camera stays off; `None` where it may be turned on.
pub open spec fn refusal(reply: Reply) -> Option<Seq<char>> {
    match reply {
        Reply::NoBus(err) => Some("no se pudo hablar con el servicio de permisos: "@ + err@),
        Reply::TimedOut => Some("el permiso de cámara no se contestó a tiempo"@),
        Reply::CallFailed(err) => Some("no se pudo consultar el permiso de cámara: "@ + err@),
        Reply::Unexpected(err) => Some(
            "respuesta inesperada del servicio de permisos: "@ + err@,
        ),
        Reply::Answered(true) => None,
        Reply::Answered(false) => Some("no se permitió usar la cámara del teléfono"@),
    }
}

/// Whether the phone's camera may be turned on.
///
/// **Fails closed.** If the service is missing, does not answer or takes too
/// long, the answer is no.
pub fn puede_usar_la_camara(reply: Reply) -> (r: Result<(), String>)
    ensures
        match r {
            Ok(_) => refusal(reply) is None,
            Err(why) => refusal(reply) == Some(why@),
        },
{
    match reply {
        Reply::NoBus(err) => Err(
            "no se pudo hablar con el servicio de permisos: ".to_owned().concat(err.as_str()),
        ),
        Reply::TimedOut => Err("el permiso de cámara no se contestó a tiempo".to_owned()),
        Reply::CallFailed(err) => Err(
            "no se pudo consultar el permiso de cámara: ".to_owned().concat(err.as_str()),
        ),
        Reply::Unexpected(err) => Err(
            "respuesta inesperada del servicio de permisos: ".to_owned().concat(err.as_str()),
        ),
        Reply::Answered(concedido) => if concedido {
            Ok(())
        } else {
            Err("no se permitió usar la cámara del teléfono".to_owned())
        },
    }
}

/// Nothing but a yes turns the camera on.
pub proof fn law_the_camera_fails_closed(reply: Reply)
    ensures
        refusal(reply) is None <==> reply == Reply::Answered(true),
{
}

/// A refusal says what stood in the way.
pub proof fn law_a_refusal_says_why(reply: Reply)
    ensures
        reply matches Reply::NoBus(err) ==> refusal(reply) == Some(
            "no se pudo hablar con el servicio de permisos: "@ + err@,
        ),
        reply is TimedOut ==> refusal(reply) == Some(
            "el permiso de cámara no se contestó a tiempo"@,
        ),
        reply matches Reply::CallFailed(err) ==> refusal(reply) == Some(
            "no se pudo consultar el permiso de cámara: "@ + err@,
        ),
        reply matches Reply::Unexpected(err) ==> refusal(reply) == Some(
            "respuesta inesperada del servicio de permisos: "@ + err@,
        ),
        reply == Reply::Answered(false) ==> refusal(reply) == Some(
            "no se permitió usar la cámara del teléfono"@,
        ),
{
}

} // verus!
