//! Reasons a request cannot be honoured, phrased so the caller can decide
//! whether to retry, ask the user something, or give up.

use vstd::prelude::*;

verus! {

/// adb is installed but the device is not talking yet.
pub const NOT_READY: &'static str = "ar.net.vasak.os.Connect.NotReady";

/// No device with that serial.
pub const NO_DEVICE: &'static str = "ar.net.vasak.os.Connect.NoDevice";

/// The person has not accepted the debugging prompt on the phone.
pub const UNAUTHORIZED: &'static str = "ar.net.vasak.os.Connect.Unauthorized";

/// `adb` or `scrcpy` is missing from the system.
pub const MISSING_TOOL: &'static str = "ar.net.vasak.os.Connect.MissingTool";

/// The app refused to start, or scrcpy could not create a virtual display.
pub const LAUNCH_FAILED: &'static str = "ar.net.vasak.os.Connect.LaunchFailed";

} // verus!
