//! The contract between the device service, the panel and the settings screen.
//!
//! Everything that travels over D-Bus is defined here once so the three sides
//! cannot drift apart. Each type has a view, in which its strings are sequences
//! of characters; the contracts of the crate speak of the views.

use vstd::prelude::*;

use crate::text::{
    chars_of, equals, is_bare, is_blank, law_trim_takes_white_space, trim, trimmed,
};

verus! {

/// The service runs on the **session** bus, as the logged-in user: the phone,
/// the adb server, the windows and the list of devices are all that person's.
pub const SERVICE_NAME: &'static str = "ar.net.vasak.os.Connect";

pub const SERVICE_PATH: &'static str = "/ar/net/vasak/os/Connect";

pub const SERVICE_INTERFACE: &'static str = "ar.net.vasak.os.Connect";

/// The name of the video device that the phone's camera is written into.
pub const WEBCAM_CARD_LABEL: &'static str = "VasakOS Phone";

/// How many characters of a card's name V4L2 keeps.
pub const V4L2_LABEL_MAX: usize = 31;

/// V4L2 keeps the whole of the card's name, so a comparison with it can succeed.
pub proof fn law_the_card_label_is_not_truncated()
    ensures
        WEBCAM_CARD_LABEL@.len() <= V4L2_LABEL_MAX,
{
    reveal_strlit("VasakOS Phone");
}

/// What a list of strings spells.
pub open spec fn texts(v: Seq<String>) -> Seq<Seq<char>> {
    v.map_values(|s: String| s@)
}

/// How the daemon is reaching a device.
///
/// The same phone can be plugged in *and* reachable over the network, with the
/// same serial but two different adb identifiers. Everything is keyed by serial
/// so it appears once in the menu, and this says which route is in use.
#[derive(Debug, Clone, Copy, PartialEq, Eq, Structural)]
pub enum Transport {
    Usb,
    Tcp,
}

impl Transport {
    pub open spec fn name(self) -> Seq<char> {
        match self {
            Transport::Usb => "usb"@,
            Transport::Tcp => "tcp"@,
        }
    }

    pub fn as_str(self) -> (r: &'static str)
        ensures
            r@ == self.name(),
    {
        match self {
            Transport::Usb => "usb",
            Transport::Tcp => "tcp",
        }
    }
}

/// What adb reports about a device it can see.
///
/// `Unauthorized` is the interesting one: the cable is in and the interface is
/// up, but nobody has tapped "Allow USB debugging" on the phone. It is not an
/// error and it is not a working device.
#[derive(Debug, Clone, Copy, PartialEq, Eq, Structural)]
pub enum DeviceState {
    /// Connected and authorised; apps can be listed and launched.
    Ready,
    /// Waiting for the person to accept the debugging prompt on the phone.
    Unauthorized,
    /// Seen at the USB level, but adb cannot talk to it yet.
    Connecting,
    /// adb knows the device but it is not usable (booting, sleeping, lost).
    Offline,
}

impl DeviceState {
    pub open spec fn name(self) -> Seq<char> {
        match self {
            DeviceState::Ready => "ready"@,
            DeviceState::Unauthorized => "unauthorized"@,
            DeviceState::Connecting => "connecting"@,
            DeviceState::Offline => "offline"@,
        }
    }

    pub fn as_str(self) -> (r: &'static str)
        ensures
            r@ == self.name(),
    {
        match self {
            DeviceState::Ready => "ready",
            DeviceState::Unauthorized => "unauthorized",
            DeviceState::Connecting => "connecting",
            DeviceState::Offline => "offline",
        }
    }
}

#[derive(Debug, PartialEq, Eq)]
pub struct Device {
    /// Stable identity of the phone. Survives replugging, changing transport
    /// and rebooting, which is why everything else is keyed by it.
    pub serial: String,
    /// What to show a person: "motorola edge 40", not "lyriq_g".
    pub model: String,
    pub transport: Transport,
    pub state: DeviceState,
    /// Whether this device has been accepted before. A phone the user already
    /// approved should just work; a new one is worth announcing.
    pub trusted: bool,
    /// Only meaningful for `Transport::Tcp`; empty over USB.
    pub address: String,
}

pub struct DeviceView {
    pub serial: Seq<char>,
    pub model: Seq<char>,
    pub transport: Transport,
    pub state: DeviceState,
    pub trusted: bool,
    pub address: Seq<char>,
}

impl View for Device {
    type V = DeviceView;

    open spec fn view(&self) -> DeviceView {
        DeviceView {
            serial: self.serial@,
            model: self.model@,
            transport: self.transport,
            state: self.state,
            trusted: self.trusted,
            address: self.address@,
        }
    }
}

impl Clone for Device {
    fn clone(&self) -> (r: Self)
        ensures
            r@ == self@,
    {
        Device {
            serial: self.serial.clone(),
            model: self.model.clone(),
            transport: self.transport,
            state: self.state,
            trusted: self.trusted,
            address: self.address.clone(),
        }
    }
}

#[derive(Debug, PartialEq, Eq)]
pub struct App {
    /// Android package name, e.g. `org.telegram.messenger`.
    pub package: String,
    /// Human name in the phone's language, as Android reports it.
    pub label: String,
    /// Shipped with the system rather than installed by the user. The menu
    /// hides these by default.
    pub system: bool,
    /// Absolute path to a cached icon, or empty when there is none.
    ///
    /// Empty is the normal case: Android has no shell command that gives an
    /// icon.
    pub icon: String,
}

pub struct AppView {
    pub package: Seq<char>,
    pub label: Seq<char>,
    pub system: bool,
    pub icon: Seq<char>,
}

impl View for App {
    type V = AppView;

    open spec fn view(&self) -> AppView {
        AppView {
            package: self.package@,
            label: self.label@,
            system: self.system,
            icon: self.icon@,
        }
    }
}

impl Clone for App {
    fn clone(&self) -> (r: Self)
        ensures
            r@ == self@,
    {
        App {
            package: self.package.clone(),
            label: self.label.clone(),
            system: self.system,
            icon: self.icon.clone(),
        }
    }
}

/// An app currently open in its own window on this desktop.
#[derive(Debug, PartialEq, Eq)]
pub struct RunningApp {
    pub serial: String,
    pub package: String,
    pub label: String,
    /// PID of the scrcpy process drawing the window.
    pub pid: u32,
}

pub struct RunningAppView {
    pub serial: Seq<char>,
    pub package: Seq<char>,
    pub label: Seq<char>,
    pub pid: u32,
}

impl View for RunningApp {
    type V = RunningAppView;

    open spec fn view(&self) -> RunningAppView {
        RunningAppView {
            serial: self.serial@,
            package: self.package@,
            label: self.label@,
            pid: self.pid,
        }
    }
}

impl Clone for RunningApp {
    fn clone(&self) -> (r: Self)
        ensures
            r@ == self@,
    {
        RunningApp {
            serial: self.serial.clone(),
            package: self.package.clone(),
            label: self.label.clone(),
            pid: self.pid,
        }
    }
}

/// Which way a camera of the phone looks.
#[derive(Debug, Clone, Copy, PartialEq, Eq, Structural)]
pub enum CameraFacing {
    Front,
    Back,
    /// Anything else: an unknown word is not a reason to lose a camera.
    External,
}

impl CameraFacing {
    pub open spec fn spelled(text: Seq<char>) -> CameraFacing {
        let word = trim(text);
        if word == "front"@ {
            CameraFacing::Front
        } else if word == "back"@ {
            CameraFacing::Back
        } else {
            CameraFacing::External
        }
    }

    pub open spec fn name(self) -> Seq<char> {
        match self {
            CameraFacing::Front => "front"@,
            CameraFacing::Back => "back"@,
            CameraFacing::External => "external"@,
        }
    }

    /// Reads the word that scrcpy prints for a facing.
    pub fn parse(text: &str) -> (r: CameraFacing)
        ensures
            r == CameraFacing::spelled(text@),
    {
        let chars = chars_of(text);
        Self::parse_chars(chars.as_slice())
    }

    pub(crate) fn parse_chars(text: &[char]) -> (r: CameraFacing)
        ensures
            r == CameraFacing::spelled(text@),
    {
        let word = trimmed(text);
        if equals(word, "front") {
            CameraFacing::Front
        } else if equals(word, "back") {
            CameraFacing::Back
        } else {
            CameraFacing::External
        }
    }

    pub fn as_str(self) -> (r: &'static str)
        ensures
            r@ == self.name(),
    {
        match self {
            CameraFacing::Front => "front",
            CameraFacing::Back => "back",
            CameraFacing::External => "external",
        }
    }
}

/// A camera of the phone and what its sensor can do.
#[derive(Debug, PartialEq, Eq)]
pub struct Camera {
    pub id: String,
    pub facing: CameraFacing,
    /// Sizes in the form `WIDTHxHEIGHT`.
    pub sizes: Vec<String>,
    /// Frame rates, in frames per second.
    pub fps: Vec<u32>,
}

pub struct CameraView {
    pub id: Seq<char>,
    pub facing: CameraFacing,
    pub sizes: Seq<Seq<char>>,
    pub fps: Seq<u32>,
}

impl View for Camera {
    type V = CameraView;

    open spec fn view(&self) -> CameraView {
        CameraView {
            id: self.id@,
            facing: self.facing,
            sizes: texts(self.sizes@),
            fps: self.fps@,
        }
    }
}

/// What the camera bridge is doing.
#[derive(Debug, PartialEq, Eq)]
pub struct WebcamState {
    pub active: bool,
    /// The loopback device, or empty where there is none.
    pub device: String,
    pub serial: String,
    pub camera_id: String,
    pub size: String,
}

pub struct WebcamStateView {
    pub active: bool,
    pub device: Seq<char>,
    pub serial: Seq<char>,
    pub camera_id: Seq<char>,
    pub size: Seq<char>,
}

impl View for WebcamState {
    type V = WebcamStateView;

    open spec fn view(&self) -> WebcamStateView {
        WebcamStateView {
            active: self.active,
            device: self.device@,
            serial: self.serial@,
            camera_id: self.camera_id@,
            size: self.size@,
        }
    }
}

/// What is told over the bus of a route, of a state and of a facing: a word each, and a
/// facing is read back from its word, white space around it or not.
pub proof fn law_the_words_of_the_bus(
    facing: CameraFacing,
    word: Seq<char>,
    before: Seq<char>,
    after: Seq<char>,
)
    requires
        is_blank(before),
        is_bare(word),
        is_blank(after),
    ensures
        Transport::Usb.name() == "usb"@,
        Transport::Tcp.name() == "tcp"@,
        DeviceState::Ready.name() == "ready"@,
        DeviceState::Unauthorized.name() == "unauthorized"@,
        DeviceState::Connecting.name() == "connecting"@,
        DeviceState::Offline.name() == "offline"@,
        CameraFacing::Front.name() == "front"@,
        CameraFacing::Back.name() == "back"@,
        CameraFacing::External.name() == "external"@,
        CameraFacing::spelled(before + word + after) == CameraFacing::Front <==> word == "front"@,
        CameraFacing::spelled(before + word + after) == CameraFacing::Back <==> word == "back"@,
        CameraFacing::spelled(facing.name()) == facing,
{
    reveal_strlit("front");
    reveal_strlit("back");
    reveal_strlit("external");
    law_trim_takes_white_space(before, word, after);
    let name = facing.name();
    let none = Seq::<char>::empty();
    assert(none + name + none == name);
    law_trim_takes_white_space(none, name, none);
    assert("front"@[0] != "back"@[0]);
    assert("external"@[0] != "back"@[0]);
    assert("external"@[0] != "front"@[0]);
}

/// What a phone, an app, a window, a camera and the bridge are is all of their fields.
pub proof fn law_every_field_counts(
    device: Device,
    app: App,
    running: RunningApp,
    camera: Camera,
    bridge: WebcamState,
    names: Seq<String>,
)
    ensures
        device@.serial == device.serial@,
        device@.model == device.model@,
        device@.transport == device.transport,
        device@.state == device.state,
        device@.trusted == device.trusted,
        device@.address == device.address@,
        app@.package == app.package@,
        app@.label == app.label@,
        app@.system == app.system,
        app@.icon == app.icon@,
        running@.serial == running.serial@,
        running@.package == running.package@,
        running@.label == running.label@,
        running@.pid == running.pid,
        camera@.id == camera.id@,
        camera@.facing == camera.facing,
        camera@.sizes == texts(camera.sizes@),
        camera@.fps == camera.fps@,
        bridge@.active == bridge.active,
        bridge@.device == bridge.device@,
        bridge@.serial == bridge.serial@,
        bridge@.camera_id == bridge.camera_id@,
        bridge@.size == bridge.size@,
        texts(names).len() == names.len(),
        forall|i: int| 0 <= i < names.len() ==> #[trigger] texts(names)[i] == names[i]@,
{
}

} // verus!
