//! One Android app, one window.
//!
//! Each open app is a scrcpy process holding a virtual display on the phone.
//! The flags are not decoration: each one fixes something that is wrong by
//! default.
//!
//! * `--new-display` is the whole feature. Without it scrcpy mirrors the
//!   phone's own screen.
//! * `--no-vd-system-decorations` removes Android's back/home/recents bar.
//! * `--display-ime-policy=local` keeps the keyboard in the window.
//! * `--no-vd-destroy-content` means closing the window sends the app back to
//!   the phone instead of killing it mid-task.
//! * `--flex-display` makes the virtual display follow the size of the window.

use vstd::prelude::*;

use crate::numerals::{decimal, decimal_of};
use crate::process::{push_arg, push_arg_with, ChildState, IoError, IoErrorView};
use crate::protocol::{texts, RunningApp, RunningAppView, Transport};
use crate::text::same;

verus! {

broadcast use vstd::string::group_string_axioms;

/// The size in pixels that a window opens with. It fits a laptop screen of
/// 1366x768 without the compositor having to cut it.
pub const ANCHO_INICIAL: u32 = 1000;

pub const ALTO_INICIAL: u32 = 700;

/// The density of the virtual display, in dpi.
///
/// **This is what decides whether an app rearranges itself when its window is
/// resized.** scrcpy follows the size of the window but keeps the density, and
/// Android chooses the layout of an app by dp, never by pixels. At 160 dpi, the
/// base density of Android, one dp is exactly one pixel.
pub const DENSIDAD: u32 = 160;

/// How many dp a number of pixels is at a density: `dp = px * 160 / dpi`.
pub open spec fn dp(pixels: int, density: int) -> int {
    pixels * 160 / density
}

pub open spec fn least(a: int, b: int) -> int {
    if a <= b {
        a
    } else {
        b
    }
}

/// How many dp a number of pixels is at a density, as Android counts when it
/// chooses the resources of an app.
pub fn en_dp(pixeles: u32, densidad: u32) -> (r: u32)
    requires
        densidad > 0,
        pixeles * 160 <= u32::MAX,
    ensures
        r == dp(pixeles as int, densidad as int),
{
    pixeles * 160 / densidad
}

/// Android's "smallest width": the shorter side, in dp.
///
/// It governs the `sw<N>dp` resources and does not change with rotation, so it
/// decides whether an app is drawn as on a phone or as on a tablet.
pub fn menor_lado_dp(ancho: u32, alto: u32, densidad: u32) -> (r: u32)
    requires
        densidad > 0,
        least(ancho as int, alto as int) * 160 <= u32::MAX,
    ensures
        r == dp(least(ancho as int, alto as int), densidad as int),
{
    let lado: u32 = if ancho <= alto {
        ancho
    } else {
        alto
    };
    en_dp(lado, densidad)
}

/// At the base density a pixel is a dp.
pub proof fn law_a_pixel_is_a_dp_at_the_base_density(pixels: int)
    ensures
        dp(pixels, DENSIDAD as int) == pixels,
{
}

/// The smallest width does not change when a window is turned.
pub proof fn law_rotation_keeps_the_smallest_width(width: int, height: int, density: int)
    ensures
        dp(least(width, height), density) == dp(least(height, width), density),
{
}

/// A window whose shorter side reaches a number of dp still does when it grows.
pub proof fn law_a_larger_window_is_no_smaller_in_dp(a: int, b: int, density: int)
    requires
        a <= b,
        density > 0,
    ensures
        dp(a, density) <= dp(b, density),
{
    vstd::arithmetic::div_mod::lemma_div_is_ordered(a * 160, b * 160, density);
}

/// The argument that asks scrcpy for a virtual display.
pub open spec fn display_arg(width: nat, height: nat, density: nat) -> Seq<char> {
    "--new-display="@ + decimal(width) + seq!['x'] + decimal(height) + seq!['/'] + decimal(density)
}

/// The argument that asks scrcpy for a virtual display.
pub fn nueva_pantalla(ancho: u32, alto: u32, densidad: u32) -> (r: String)
    ensures
        r@ == display_arg(ancho as nat, alto as nat, densidad as nat),
{
    let mut r = "--new-display=".to_owned();
    r.append(decimal_of(ancho as u64).as_str());
    r.push('x');
    r.append(decimal_of(alto as u64).as_str());
    r.push('/');
    r.append(decimal_of(densidad as u64).as_str());
    assert(r@ == display_arg(ancho as nat, alto as nat, densidad as nat));
    r
}

/// Over the network the link is both slower and lossier than a cable, so the
/// defaults produce a stuttering window. Over USB the bandwidth is not the
/// limit, and a large window needs more than the default.
pub open spec fn link_args(transport: Transport) -> Seq<Seq<char>> {
    match transport {
        Transport::Tcp => seq![
            "--video-codec=h265"@,
            "--video-bit-rate=4M"@,
            "--max-fps=30"@,
        ],
        Transport::Usb => seq!["--video-bit-rate=16M"@],
    }
}

/// The arguments with which scrcpy opens an app in a window of its own.
pub open spec fn window_args(
    serial: Seq<char>,
    package: Seq<char>,
    label: Seq<char>,
    transport: Transport,
) -> Seq<Seq<char>> {
    seq![
        "-s"@,
        serial,
        display_arg(ANCHO_INICIAL as nat, ALTO_INICIAL as nat, DENSIDAD as nat),
        "--no-vd-system-decorations"@,
        "--display-ime-policy=local"@,
        "--no-vd-destroy-content"@,
        "--flex-display"@,
        "--start-app=+"@ + package,
        "--window-title="@ + label,
    ] + link_args(transport)
}

fn command_line(serial: &str, package: &str, label: &str, transport: Transport) -> (r: Vec<String>)
    ensures
        texts(r@) == window_args(serial@, package@, label@, transport),
{
    let mut args: Vec<String> = Vec::new();
    push_arg(&mut args, "-s");
    push_arg(&mut args, serial);
    push_arg(&mut args, nueva_pantalla(ANCHO_INICIAL, ALTO_INICIAL, DENSIDAD).as_str());
    push_arg(&mut args, "--no-vd-system-decorations");
    push_arg(&mut args, "--display-ime-policy=local");
    push_arg(&mut args, "--no-vd-destroy-content");
    push_arg(&mut args, "--flex-display");
    // `+` force-stops first. An app already running on the phone's own screen
    // otherwise refuses to move to the new display and the window stays black.
    push_arg_with(&mut args, "--start-app=+", package);
    push_arg_with(&mut args, "--window-title=", label);
    match transport {
        Transport::Tcp => {
            push_arg(&mut args, "--video-codec=h265");
            push_arg(&mut args, "--video-bit-rate=4M");
            push_arg(&mut args, "--max-fps=30");
        },
        Transport::Usb => {
            push_arg(&mut args, "--video-bit-rate=16M");
        },
    }
    assert(texts(args@) == window_args(serial@, package@, label@, transport));
    args
}

#[derive(Debug)]
pub enum SpawnError {
    /// scrcpy is not installed.
    Missing,
    Io(IoError),
}

pub enum SpawnErrorView {
    Missing,
    Io(IoErrorView),
}

impl View for SpawnError {
    type V = SpawnErrorView;

    open spec fn view(&self) -> SpawnErrorView {
        match self {
            SpawnError::Missing => SpawnErrorView::Missing,
            SpawnError::Io(err) => SpawnErrorView::Io(err@),
        }
    }
}

impl SpawnErrorView {
    /// The error in words.
    pub open spec fn message(self) -> Seq<char> {
        match self {
            SpawnErrorView::Missing => "scrcpy no está instalado"@,
            SpawnErrorView::Io(err) => "no se pudo iniciar scrcpy: "@ + err.message,
        }
    }
}

impl SpawnError {
    /// The error in words.
    pub fn message(&self) -> (r: String)
        ensures
            r@ == self@.message(),
    {
        match self {
            SpawnError::Missing => "scrcpy no está instalado".to_owned(),
            SpawnError::Io(err) => "no se pudo iniciar scrcpy: ".to_owned().concat(
                err.message.as_str(),
            ),
        }
    }
}

impl From<IoError> for SpawnError {
    fn from(err: IoError) -> (r: SpawnError) {
        if err.not_found {
            SpawnError::Missing
        } else {
            SpawnError::Io(err)
        }
    }
}

impl vstd::std_specs::convert::FromSpecImpl<IoError> for SpawnError {
    open spec fn obeys_from_spec() -> bool {
        true
    }

    open spec fn from_spec(err: IoError) -> SpawnError {
        if err.not_found {
            SpawnError::Missing
        } else {
            SpawnError::Io(err)
        }
    }
}

/// Identifies an open window: one app on one device.
pub type WindowKey = (String, String);

/// An app's window. `C` is the handle of the process that draws it.
pub struct Window<C> {
    pub label: String,
    pub pid: u32,
    pub child: C,
}

/// What it takes to show an app.
pub enum Launch {
    /// Its window is open already, drawn by this process. Raising it is the
    /// compositor's job, but a second copy would create a second virtual display
    /// for the same app.
    AlreadyOpen(u32),
    /// scrcpy has to be started with these arguments.
    Spawn(Vec<String>),
}

/// Every app window currently open, and who they belong to. `C` is the handle
/// of the process that draws a window.
pub struct WindowManager<C> {
    apps: Vec<RunningApp>,
    children: Vec<C>,
}

/// An open window: what it shows, and the process that draws it.
pub type OpenWindow<C> = (RunningAppView, C);

/// Whether a window shows an app of a device.
pub open spec fn shows<C>(w: OpenWindow<C>, serial: Seq<char>, package: Seq<char>) -> bool {
    w.0.serial == serial && w.0.package == package
}

/// Whether one of some windows shows an app of a device.
pub open spec fn is_open<C>(
    windows: Seq<OpenWindow<C>>,
    serial: Seq<char>,
    package: Seq<char>,
) -> bool {
    exists|i: int| 0 <= i < windows.len() && shows(#[trigger] windows[i], serial, package)
}

/// No app of a device has two windows.
pub open spec fn one_window_per_app<C>(windows: Seq<OpenWindow<C>>) -> bool {
    forall|i: int, j: int|
        0 <= i < j < windows.len() ==> !shows(
            #[trigger] windows[i],
            (#[trigger] windows[j]).0.serial,
            windows[j].0.package,
        )
}

/// The windows of a device.
pub open spec fn windows_of<C>(serial: Seq<char>) -> spec_fn(OpenWindow<C>) -> bool {
    |w: OpenWindow<C>| w.0.serial == serial
}

/// The windows of other devices.
pub open spec fn windows_not_of<C>(serial: Seq<char>) -> spec_fn(OpenWindow<C>) -> bool {
    |w: OpenWindow<C>| w.0.serial != serial
}

/// The windows of which a look at their processes found the ones asked for:
/// those that still run, or the others.
pub open spec fn found<C>(
    windows: Seq<OpenWindow<C>>,
    states: Seq<ChildState>,
    running: bool,
) -> Seq<OpenWindow<C>>
    decreases windows.len(),
{
    if windows.len() == 0 {
        Seq::empty()
    } else {
        let before = found(windows.drop_last(), states.drop_last(), running);
        if (states.last() == ChildState::Running) == running {
            before.push(windows.last())
        } else {
            before
        }
    }
}

pub open spec fn key_view(key: WindowKey) -> (Seq<char>, Seq<char>) {
    (key.0@, key.1@)
}

spec fn no_app_twice(apps: Seq<RunningApp>) -> bool {
    forall|i: int, j: int|
        0 <= i < j < apps.len() ==> !((#[trigger] apps[i]).serial@ == (
        #[trigger] apps[j]).serial@ && apps[i].package@ == apps[j].package@)
}

impl<C> View for WindowManager<C> {
    type V = Seq<OpenWindow<C>>;

    /// The open windows, in the order in which they were opened.
    closed spec fn view(&self) -> Seq<OpenWindow<C>> {
        paired(self.apps@, self.children@)
    }
}

spec fn paired<C>(apps: Seq<RunningApp>, children: Seq<C>) -> Seq<OpenWindow<C>> {
    Seq::new(apps.len(), |i: int| (apps[i]@, children[i]))
}

proof fn lemma_one_window_per_app<C>(apps: Seq<RunningApp>, children: Seq<C>)
    ensures
        no_app_twice(apps) == one_window_per_app(paired(apps, children)),
{
    let windows = paired(apps, children);
    if no_app_twice(apps) {
        assert forall|i: int, j: int| 0 <= i < j < windows.len() implies !shows(
            #[trigger] windows[i],
            (#[trigger] windows[j]).0.serial,
            windows[j].0.package,
        ) by {
            assert(windows[i].0 == apps[i]@ && windows[j].0 == apps[j]@);
        }
    }
    if one_window_per_app(windows) {
        assert forall|i: int, j: int| 0 <= i < j < apps.len() implies !((
        #[trigger] apps[i]).serial@ == (#[trigger] apps[j]).serial@ && apps[i].package@
            == apps[j].package@) by {
            assert(windows[i].0 == apps[i]@ && windows[j].0 == apps[j]@);
        }
    }
}

/// Windows chosen from others do not show an app twice either.
pub proof fn lemma_chosen<C>(windows: Seq<OpenWindow<C>>, p: spec_fn(OpenWindow<C>) -> bool)
    requires
        one_window_per_app(windows),
    ensures
        one_window_per_app(windows.filter(p)),
    decreases windows.len(),
{
    reveal(Seq::filter);
    if windows.len() > 0 {
        let rest = windows.drop_last();
        lemma_chosen(rest, p);
        let kept = rest.filter(p);
        if p(windows.last()) {
            let all = kept.push(windows.last());
            assert forall|i: int, j: int| 0 <= i < j < all.len() implies !shows(
                #[trigger] all[i],
                (#[trigger] all[j]).0.serial,
                all[j].0.package,
            ) by {
                if j == kept.len() {
                    rest.lemma_filter_contains_rev(p, kept[i]);
                    let k = choose|k: int| 0 <= k < rest.len() && rest[k] == kept[i];
                    assert(windows[k] == kept[i]);
                }
            }
        }
    }
}

proof fn lemma_found<C>(windows: Seq<OpenWindow<C>>, states: Seq<ChildState>, running: bool)
    requires
        windows.len() == states.len(),
    ensures
        forall|i: int|
            0 <= i < found(windows, states, running).len() ==> windows.contains(
                #[trigger] found(windows, states, running)[i],
            ),
        one_window_per_app(windows) ==> one_window_per_app(found(windows, states, running)),
    decreases windows.len(),
{
    if windows.len() > 0 {
        let rest = windows.drop_last();
        let kept = found(rest, states.drop_last(), running);
        let all = found(windows, states, running);
        lemma_found(rest, states.drop_last(), running);
        assert forall|i: int| 0 <= i < all.len() implies windows.contains(#[trigger] all[i]) by {
            if i < kept.len() {
                assert(rest.contains(kept[i]));
                let k = choose|k: int| 0 <= k < rest.len() && rest[k] == kept[i];
                assert(windows[k] == kept[i]);
            } else {
                assert(windows[windows.len() - 1] == all[i]);
            }
        }
        if one_window_per_app(windows) {
            assert forall|i: int, j: int| 0 <= i < j < all.len() implies !shows(
                #[trigger] all[i],
                (#[trigger] all[j]).0.serial,
                all[j].0.package,
            ) by {
                if j == kept.len() {
                    assert(rest.contains(kept[i]));
                    let k = choose|k: int| 0 <= k < rest.len() && rest[k] == kept[i];
                    assert(windows[k] == kept[i]);
                }
            }
        }
    }
}

impl<C> WindowManager<C> {
    #[verifier::type_invariant]
    spec fn well_formed(self) -> bool {
        &&& self.apps@.len() == self.children@.len()
        &&& no_app_twice(self.apps@)
    }

    /// No window is open.
    pub fn new() -> (r: WindowManager<C>)
        ensures
            r@ == Seq::<OpenWindow<C>>::empty(),
    {
        WindowManager { apps: Vec::new(), children: Vec::new() }
    }

    /// How many windows are open.
    pub fn len(&self) -> (n: usize)
        ensures
            n == self@.len(),
    {
        self.apps.len()
    }

    /// What is open in a window right now.
    pub fn list(&self) -> (r: Vec<&RunningApp>)
        ensures
            r@.map_values(|app: &RunningApp| app@) == self@.map_values(|w: OpenWindow<C>| w.0),
            one_window_per_app(self@),
    {
        proof {
            use_type_invariant(self);
        }
        let mut r: Vec<&RunningApp> = Vec::new();
        for i in 0..self.apps.len()
            invariant
                r@.len() == i,
                forall|j: int| 0 <= j < i ==> *(#[trigger] r@[j]) == self.apps@[j],
        {
            r.push(&self.apps[i]);
        }
        assert(r@.map_values(|app: &RunningApp| app@) == self@.map_values(
            |w: OpenWindow<C>| w.0,
        ));
        proof {
            lemma_one_window_per_app(self.apps@, self.children@);
        }
        r
    }

    /// Where the window of an app is, if it is open.
    fn position(&self, serial: &str, package: &str) -> (r: Option<usize>)
        ensures
            match r {
                Some(n) => n < self@.len() && shows(self@[n as int], serial@, package@),
                None => !is_open(self@, serial@, package@),
            },
    {
        let mut n: usize = 0;
        while n < self.apps.len()
            invariant
                n <= self.apps@.len(),
                forall|i: int| 0 <= i < n ==> !shows(#[trigger] self@[i], serial@, package@),
            decreases self.apps@.len() - n,
        {
            assert(self@[n as int].0 == self.apps@[n as int]@);
            if same(self.apps[n].serial.as_str(), serial) && same(
                self.apps[n].package.as_str(),
                package,
            ) {
                return Some(n);
            }
            n = n + 1;
        }
        None
    }

    /// What it takes to open an app in its own window.
    pub fn launch(&self, serial: &str, package: &str, label: &str, transport: Transport) -> (r:
        Launch)
        ensures
            match r {
                Launch::AlreadyOpen(pid) => exists|i: int|
                    0 <= i < self@.len() && shows(#[trigger] self@[i], serial@, package@) && pid
                        == self@[i].0.pid,
                Launch::Spawn(args) => !is_open(self@, serial@, package@) && texts(args@)
                    == window_args(serial@, package@, label@, transport),
            },
            one_window_per_app(self@),
    {
        proof {
            use_type_invariant(self);
            lemma_one_window_per_app(self.apps@, self.children@);
        }
        match self.position(serial, package) {
            Some(n) => {
                assert(self@[n as int].0 == self.apps@[n as int]@);
                Launch::AlreadyOpen(self.apps[n].pid)
            },
            None => Launch::Spawn(command_line(serial, package, label, transport)),
        }
    }

    /// Takes the windows out, and leaves none.
    fn take(&mut self) -> (r: WindowManager<C>)
        ensures
            r@ == old(self)@,
            final(self)@ == Seq::<OpenWindow<C>>::empty(),
    {
        let mut r = WindowManager::new();
        std::mem::swap(self, &mut r);
        r
    }

    /// Records the window of an app once its process was started, in place of
    /// the one it had, and gives its process id: 0 where the process has none
    /// any more.
    pub fn opened(
        &mut self,
        serial: &str,
        package: &str,
        label: &str,
        pid: Option<u32>,
        child: C,
    ) -> (r: u32)
        ensures
            r == match pid {
                Some(id) => id,
                None => 0,
            },
            ({
                let window = (
                    RunningAppView {
                        serial: serial@,
                        package: package@,
                        label: label@,
                        pid: r,
                    },
                    child,
                );
                if is_open(old(self)@, serial@, package@) {
                    exists|i: int|
                        0 <= i < old(self)@.len() && shows(
                            #[trigger] old(self)@[i],
                            serial@,
                            package@,
                        ) && final(self)@ == old(self)@.update(i, window)
                } else {
                    final(self)@ == old(self)@.push(window)
                }
            }),
            is_open(final(self)@, serial@, package@),
            one_window_per_app(old(self)@),
            one_window_per_app(final(self)@),
    {
        let pid: u32 = match pid {
            Some(id) => id,
            None => 0,
        };
        let app = RunningApp {
            serial: serial.to_owned(),
            package: package.to_owned(),
            label: label.to_owned(),
            pid,
        };
        let at = self.position(serial, package);
        let ghost before = self@;
        let all = self.take();
        proof {
            use_type_invariant(&all);
        }
        let WindowManager { apps, children } = all;
        let mut apps = apps;
        let mut children = children;
        proof {
            lemma_one_window_per_app(apps@, children@);
        }
        match at {
            Some(n) => {
                assert(before[n as int].0 == apps@[n as int]@);
                apps.set(n, app);
                children.set(n, child);
                assert(paired(apps@, children@) == before.update(n as int, (app@, child)));
                assert(shows(paired(apps@, children@)[n as int], serial@, package@));
            },
            None => {
                assert forall|i: int| 0 <= i < apps@.len() implies !((
                #[trigger] apps@[i]).serial@ == serial@ && apps@[i].package@ == package@) by {
                    assert(before[i].0 == apps@[i]@);
                }
                apps.push(app);
                children.push(child);
                assert(paired(apps@, children@) == before.push((app@, child)));
                assert(shows(paired(apps@, children@)[before.len() as int], serial@, package@));
            },
        }
        proof {
            lemma_one_window_per_app(apps@, children@);
        }
        *self = WindowManager { apps, children };
        pid
    }

    /// Closes one window: hands it out, so that its process can be killed.
    pub fn stop(&mut self, serial: &str, package: &str) -> (r: Option<Window<C>>)
        ensures
            match r {
                Some(window) => exists|i: int|
                    0 <= i < old(self)@.len() && shows(#[trigger] old(self)@[i], serial@, package@)
                        && window.label@ == old(self)@[i].0.label && window.pid
                        == old(self)@[i].0.pid && window.child == old(self)@[i].1 && final(self)@
                        == old(self)@.remove(i),
                None => !is_open(old(self)@, serial@, package@) && final(self)@ == old(self)@,
            },
            !is_open(final(self)@, serial@, package@),
            one_window_per_app(old(self)@),
            one_window_per_app(final(self)@),
    {
        proof {
            use_type_invariant(&*self);
            lemma_one_window_per_app(self.apps@, self.children@);
        }
        let n = match self.position(serial, package) {
            Some(n) => n,
            None => {
                return None;
            },
        };
        let ghost before = self@;
        let all = self.take();
        proof {
            use_type_invariant(&all);
            lemma_one_window_per_app(all.apps@, all.children@);
        }
        let WindowManager { apps, children } = all;
        let mut apps = apps;
        let mut children = children;
        assert(before[n as int].0 == apps@[n as int]@);
        let app = apps.remove(n);
        let child = children.remove(n);
        proof {
            assert(paired(apps@, children@) == before.remove(n as int));
            law_a_closed_app_is_not_open(before, n as int, serial@, package@);
            lemma_one_window_per_app(apps@, children@);
        }
        *self = WindowManager { apps, children };
        Some(Window { label: app.label, pid: app.pid, child })
    }

    /// Closes every window belonging to a device: hands out the apps that were
    /// open with their processes, so that they can be killed.
    ///
    /// Called when the phone goes away.
    pub fn stop_all(&mut self, serial: &str) -> (r: Vec<(String, C)>)
        ensures
            r@.map_values(|p: (String, C)| (p.0@, p.1)) == old(self)@.filter(
                windows_of(serial@),
            ).map_values(|w: OpenWindow<C>| (w.0.package, w.1)),
            final(self)@ == old(self)@.filter(windows_not_of(serial@)),
            one_window_per_app(final(self)@),
    {
        let ghost before = self@;
        let ghost mine = windows_of::<C>(serial@);
        let ghost others = windows_not_of::<C>(serial@);
        let ghost shown = |p: (String, C)| (p.0@, p.1);
        let ghost part = |w: OpenWindow<C>| (w.0.package, w.1);
        let all = self.take();
        proof {
            use_type_invariant(&all);
            lemma_one_window_per_app(all.apps@, all.children@);
        }
        let WindowManager { apps, children } = all;
        let mut apps = apps;
        let mut children = children;
        let mut closed: Vec<(String, C)> = Vec::new();
        let mut kept_apps: Vec<RunningApp> = Vec::new();
        let mut kept_children: Vec<C> = Vec::new();
        let ghost mut n: int = 0;
        reveal(Seq::filter);
        assert(before.skip(0) == before);
        assert(before.take(0) == Seq::<OpenWindow<C>>::empty());
        while apps.len() > 0
            invariant
                0 <= n <= before.len(),
                apps@.len() == children@.len(),
                kept_apps@.len() == kept_children@.len(),
                paired(apps@, children@) == before.skip(n),
                mine == windows_of::<C>(serial@),
                others == windows_not_of::<C>(serial@),
                shown == (|p: (String, C)| (p.0@, p.1)),
                part == (|w: OpenWindow<C>| (w.0.package, w.1)),
                closed@.map_values(shown) == before.take(n).filter(mine).map_values(part),
                paired(kept_apps@, kept_children@) == before.take(n).filter(others),
            decreases apps@.len(),
        {
            let ghost shut = closed@.map_values(shown);
            let ghost kept = paired(kept_apps@, kept_children@);
            let ghost rest = paired(apps@, children@);
            let app = apps.remove(0);
            let child = children.remove(0);
            proof {
                reveal(Seq::filter);
                assert(rest.len() == before.len() - n);
                assert(rest[0] == (app@, child));
                assert(before[n] == rest[0]);
                assert(paired(apps@, children@) == rest.skip(1));
                assert(rest.skip(1) == before.skip(n + 1));
                assert(before.take(n + 1).drop_last() == before.take(n));
                assert(before.take(n + 1).last() == before[n]);
                let chosen = before.take(n).filter(mine);
                assert(chosen.push(before[n]).map_values(part) == chosen.map_values(part).push(
                    part(before[n]),
                ));
            }
            if same(app.serial.as_str(), serial) {
                let entry = (app.package, child);
                closed.push(entry);
                assert(closed@.map_values(shown) == shut.push(part(before[n])));
            } else {
                kept_apps.push(app);
                kept_children.push(child);
                assert(paired(kept_apps@, kept_children@) == kept.push(before[n]));
            }
            proof {
                n = n + 1;
            }
        }
        proof {
            assert(before.take(n) == before);
            lemma_chosen(before, others);
            lemma_one_window_per_app(kept_apps@, kept_children@);
        }
        *self = WindowManager { apps: kept_apps, children: kept_children };
        closed
    }

    /// Collects windows whose process has ended on its own, given what a look at
    /// each process found, in the order of [`WindowManager::list`]. A process
    /// that cannot be asked is given up.
    ///
    /// Returns the ones that were collected, so that the panel can be told.
    pub fn reap(&mut self, states: &Vec<ChildState>) -> (gone: Vec<WindowKey>)
        requires
            states@.len() == old(self)@.len(),
        ensures
            final(self)@ == found(old(self)@, states@, true),
            gone@.map_values(|k: WindowKey| key_view(k)) == found(
                old(self)@,
                states@,
                false,
            ).map_values(|w: OpenWindow<C>| (w.0.serial, w.0.package)),
            one_window_per_app(final(self)@),
    {
        let ghost before = self@;
        let ghost shown = |k: WindowKey| key_view(k);
        let ghost part = |w: OpenWindow<C>| (w.0.serial, w.0.package);
        let all = self.take();
        proof {
            use_type_invariant(&all);
            lemma_one_window_per_app(all.apps@, all.children@);
        }
        let WindowManager { apps, children } = all;
        let mut apps = apps;
        let mut children = children;
        let mut gone: Vec<WindowKey> = Vec::new();
        let mut kept_apps: Vec<RunningApp> = Vec::new();
        let mut kept_children: Vec<C> = Vec::new();
        let total = states.len();
        let mut n: usize = 0;
        assert(before.skip(0) == before);
        while apps.len() > 0
            invariant
                0 <= n <= before.len(),
                total == states@.len(),
                states@.len() == before.len(),
                apps@.len() == children@.len(),
                kept_apps@.len() == kept_children@.len(),
                paired(apps@, children@) == before.skip(n as int),
                shown == (|k: WindowKey| key_view(k)),
                part == (|w: OpenWindow<C>| (w.0.serial, w.0.package)),
                gone@.map_values(shown) == found(
                    before.take(n as int),
                    states@.take(n as int),
                    false,
                ).map_values(part),
                paired(kept_apps@, kept_children@) == found(
                    before.take(n as int),
                    states@.take(n as int),
                    true,
                ),
            decreases apps@.len(),
        {
            let ghost lost = gone@.map_values(shown);
            let ghost kept = paired(kept_apps@, kept_children@);
            let ghost rest = paired(apps@, children@);
            let ghost window = before[n as int];
            assert(rest.len() > 0);
            let app = apps.remove(0);
            let child = children.remove(0);
            proof {
                assert(rest.len() == before.len() - n);
                assert(rest[0] == (app@, child));
                assert(window == rest[0]);
                assert(paired(apps@, children@) == rest.skip(1));
                assert(rest.skip(1) == before.skip(n + 1));
                assert(before.take(n + 1).drop_last() == before.take(n as int));
                assert(states@.take(n + 1).drop_last() == states@.take(n as int));
                let chosen = found(before.take(n as int), states@.take(n as int), false);
                assert(chosen.push(window).map_values(part) == chosen.map_values(part).push(
                    part(window),
                ));
            }
            if states[n] == ChildState::Running {
                kept_apps.push(app);
                kept_children.push(child);
                assert(paired(kept_apps@, kept_children@) == kept.push(window));
            } else {
                let key = (app.serial, app.package);
                gone.push(key);
                assert(gone@.map_values(shown) == lost.push(part(window)));
            }
            n = n + 1;
        }
        proof {
            assert(before.take(n as int) == before);
            assert(states@.take(n as int) == states@);
            lemma_found(before, states@, true);
            lemma_one_window_per_app(kept_apps@, kept_children@);
        }
        *self = WindowManager { apps: kept_apps, children: kept_children };
        gone
    }

    /// The handle of the process that draws a window, to ask after it.
    pub fn child_mut(&mut self, i: usize) -> (r: &mut C)
        requires
            i < old(self)@.len(),
        ensures
            *r == old(self)@[i as int].1,
            final(self)@ == old(self)@.update(i as int, (old(self)@[i as int].0, *final(r))),
    {
        proof {
            use_type_invariant(&*self);
        }
        &mut self.children[i]
    }
}

/// Once the window of an app is closed, the app is not open any more, and the
/// other apps are as open as before.
pub proof fn law_a_closed_app_is_not_open<C>(
    windows: Seq<OpenWindow<C>>,
    i: int,
    serial: Seq<char>,
    package: Seq<char>,
)
    requires
        one_window_per_app(windows),
        0 <= i < windows.len(),
        shows(windows[i], serial, package),
    ensures
        !is_open(windows.remove(i), serial, package),
        one_window_per_app(windows.remove(i)),
        forall|s: Seq<char>, p: Seq<char>|
            !(s == serial && p == package) ==> #[trigger] is_open(windows.remove(i), s, p)
                == is_open(windows, s, p),
{
    let after = windows.remove(i);
    assert forall|j: int, k: int| 0 <= j < k < after.len() implies !shows(
        #[trigger] after[j],
        (#[trigger] after[k]).0.serial,
        after[k].0.package,
    ) by {
        let x = if j < i {
            j
        } else {
            j + 1
        };
        let y = if k < i {
            k
        } else {
            k + 1
        };
        assert(after[j] == windows[x] && after[k] == windows[y]);
    }
    assert forall|j: int| 0 <= j < after.len() implies !shows(
        #[trigger] after[j],
        serial,
        package,
    ) by {
        let x = if j < i {
            j
        } else {
            j + 1
        };
        assert(after[j] == windows[x]);
        if x < i {
            assert(!shows(windows[x], windows[i].0.serial, windows[i].0.package));
        } else {
            assert(!shows(windows[i], windows[x].0.serial, windows[x].0.package));
        }
    }
    assert forall|s: Seq<char>, p: Seq<char>|
        !(s == serial && p == package) implies #[trigger] is_open(after, s, p) == is_open(
        windows,
        s,
        p,
    ) by {
        if is_open(windows, s, p) {
            let x = choose|x: int| 0 <= x < windows.len() && shows(#[trigger] windows[x], s, p);
            let j = if x < i {
                x
            } else {
                x - 1
            };
            assert(after[j] == windows[x]);
        }
        if is_open(after, s, p) {
            let j = choose|j: int| 0 <= j < after.len() && shows(#[trigger] after[j], s, p);
            let x = if j < i {
                j
            } else {
                j + 1
            };
            assert(after[j] == windows[x]);
        }
    }
}

/// Once the windows of a device are closed, none of its apps is open any more,
/// and the apps of the other devices are as open as before.
pub proof fn law_a_phone_that_left_has_no_window<C>(
    windows: Seq<OpenWindow<C>>,
    serial: Seq<char>,
)
    ensures
        forall|s: Seq<char>, p: Seq<char>| #[trigger]
            is_open(windows.filter(windows_not_of(serial)), s, p) <==> s != serial && is_open(
                windows,
                s,
                p,
            ),
{
    let others = windows_not_of::<C>(serial);
    let kept = windows.filter(others);
    assert forall|s: Seq<char>, p: Seq<char>| #[trigger] is_open(kept, s, p) <==> s != serial
        && is_open(windows, s, p) by {
        if is_open(kept, s, p) {
            let i = choose|i: int| 0 <= i < kept.len() && shows(#[trigger] kept[i], s, p);
            windows.lemma_filter_pred(others, i);
            windows.lemma_filter_contains_rev(others, kept[i]);
            let j = choose|j: int| 0 <= j < windows.len() && windows[j] == kept[i];
            assert(shows(windows[j], s, p));
        }
        if s != serial && is_open(windows, s, p) {
            let j = choose|j: int| 0 <= j < windows.len() && shows(#[trigger] windows[j], s, p);
            windows.lemma_filter_contains(others, j);
            let i = choose|i: int| 0 <= i < kept.len() && kept[i] == windows[j];
            assert(shows(kept[i], s, p));
        }
    }
}

/// Collecting loses no window: each either stays open or is reported as gone,
/// according to whether its process runs.
pub proof fn law_every_window_stays_or_is_collected<C>(
    windows: Seq<OpenWindow<C>>,
    states: Seq<ChildState>,
)
    requires
        windows.len() == states.len(),
    ensures
        found(windows, states, true).len() + found(windows, states, false).len() == windows.len(),
        forall|i: int|
            0 <= i < windows.len() ==> found(
                windows,
                states,
                #[trigger] states[i] == ChildState::Running,
            ).contains(windows[i]),
    decreases windows.len(),
{
    if windows.len() > 0 {
        let rest = windows.drop_last();
        let earlier = states.drop_last();
        law_every_window_stays_or_is_collected(rest, earlier);
        assert forall|i: int| 0 <= i < windows.len() implies found(
            windows,
            states,
            #[trigger] states[i] == ChildState::Running,
        ).contains(windows[i]) by {
            let running = states[i] == ChildState::Running;
            let all = found(windows, states, running);
            if i < rest.len() {
                let kept = found(rest, earlier, running);
                assert(earlier[i] == states[i]);
                assert(kept.contains(rest[i]));
                let k = choose|k: int| 0 <= k < kept.len() && kept[k] == rest[i];
                assert(all[k] == windows[i]);
            } else {
                assert(all.last() == windows[i]);
                assert(all[all.len() - 1] == windows[i]);
            }
        }
    }
}

/// A number of dp is the whole part of the pixels times 160 by the density.
pub proof fn law_dp_are_whole(pixels: int, density: int)
    requires
        density > 0,
        pixels >= 0,
    ensures
        dp(pixels, density) * density <= pixels * 160,
        pixels * 160 < (dp(pixels, density) + 1) * density,
{
    vstd::arithmetic::div_mod::lemma_fundamental_div_mod(pixels * 160, density);
    vstd::arithmetic::div_mod::lemma_mod_bound(pixels * 160, density);
    let q = dp(pixels, density);
    assert(density * q == q * density) by (nonlinear_arith);
    assert((q + 1) * density == q * density + density) by (nonlinear_arith);
}

/// The shorter side is one of the two, and no longer than either.
pub proof fn law_the_shorter_side(a: int, b: int)
    ensures
        least(a, b) == a || least(a, b) == b,
        least(a, b) <= a,
        least(a, b) <= b,
{
}

/// The arguments that open a window: which phone, a display of its own in the size a
/// window opens with, which app and which title, and last what the link can carry.
/// Nothing but the link depends on how the phone is reached.
pub proof fn law_the_arguments_of_a_window(
    serial: Seq<char>,
    package: Seq<char>,
    label: Seq<char>,
    transport: Transport,
)
    ensures
        ({
            let args = window_args(serial, package, label, transport);
            &&& args[0] == "-s"@
            &&& args[1] == serial
            &&& args[2] == "--new-display="@ + decimal(1000) + seq!['x'] + decimal(700) + seq!['/']
                + decimal(160)
            &&& args[3] == "--no-vd-system-decorations"@
            &&& args[4] == "--display-ime-policy=local"@
            &&& args[5] == "--no-vd-destroy-content"@
            &&& args[6] == "--flex-display"@
            &&& args[7] == "--start-app=+"@ + package
            &&& args[8] == "--window-title="@ + label
            &&& transport == Transport::Usb ==> args.len() == 10 && args[9]
                == "--video-bit-rate=16M"@
            &&& transport == Transport::Tcp ==> args.len() == 12 && args[9]
                == "--video-codec=h265"@ && args[10] == "--video-bit-rate=4M"@ && args[11]
                == "--max-fps=30"@
        }),
{
}

/// The argument for a display names its width, its height and its density.
pub proof fn law_a_display_is_named_by_its_size(width: nat, height: nat, density: nat)
    ensures
        display_arg(width, height, density) == "--new-display="@ + decimal(width) + seq!['x']
            + decimal(height) + seq!['/'] + decimal(density),
{
}

/// A window shows the app of a device where both the device and the package are the
/// ones asked for; an app is open where some window shows it.
pub proof fn law_a_window_shows_one_app_of_one_phone<C>(
    windows: Seq<OpenWindow<C>>,
    serial: Seq<char>,
    package: Seq<char>,
    other: Seq<char>,
)
    ensures
        is_open(windows, serial, package) <==> exists|i: int|
            0 <= i < windows.len() && (#[trigger] windows[i]).0.serial == serial
                && windows[i].0.package == package,
        one_window_per_app(windows) <==> forall|i: int, j: int|
            0 <= i < j < windows.len() ==> (#[trigger] windows[i]).0.serial != (
            #[trigger] windows[j]).0.serial || windows[i].0.package != windows[j].0.package,
        forall|i: int|
            0 <= i < windows.len() ==> (#[trigger] windows_of::<C>(serial)(windows[i])
                <==> windows[i].0.serial == serial),
        forall|i: int|
            0 <= i < windows.len() ==> (#[trigger] windows_not_of::<C>(serial)(windows[i])
                <==> windows[i].0.serial != serial),
{
    if is_open(windows, serial, package) {
        let i = choose|i: int| 0 <= i < windows.len() && shows(
            #[trigger] windows[i],
            serial,
            package,
        );
        assert(windows[i].0.serial == serial && windows[i].0.package == package);
    }
    if exists|i: int|
        0 <= i < windows.len() && (#[trigger] windows[i]).0.serial == serial
            && windows[i].0.package == package {
        let i = choose|i: int|
            0 <= i < windows.len() && (#[trigger] windows[i]).0.serial == serial
                && windows[i].0.package == package;
        assert(shows(windows[i], serial, package));
    }
}

/// Windows are collected in their order, and a window stays open exactly where its
/// process runs.
pub proof fn law_collecting_keeps_the_order<C>(
    windows: Seq<OpenWindow<C>>,
    states: Seq<ChildState>,
    window: OpenWindow<C>,
    state: ChildState,
    running: bool,
)
    requires
        windows.len() == states.len(),
    ensures
        found(Seq::<OpenWindow<C>>::empty(), Seq::empty(), running).len() == 0,
        state == ChildState::Running ==> found(windows.push(window), states.push(state), true)
            == found(windows, states, true).push(window) && found(
            windows.push(window),
            states.push(state),
            false,
        ) == found(windows, states, false),
        state != ChildState::Running ==> found(windows.push(window), states.push(state), false)
            == found(windows, states, false).push(window) && found(
            windows.push(window),
            states.push(state),
            true,
        ) == found(windows, states, true),
{
    assert(windows.push(window).drop_last() == windows);
    assert(states.push(state).drop_last() == states);
}

/// Why a window did not open, in words.
pub proof fn law_spawn_errors_say_what_happened(err: IoErrorView)
    ensures
        SpawnErrorView::Missing.message() == "scrcpy no está instalado"@,
        SpawnErrorView::Io(err).message() == "no se pudo iniciar scrcpy: "@ + err.message,
{
}

/// A window is known by its phone and its app, and an error is told with all that it
/// carries.
pub proof fn law_windows_are_known_by_phone_and_app(key: WindowKey, err: SpawnError)
    ensures
        key_view(key).0 == key.0@,
        key_view(key).1 == key.1@,
        err is Missing ==> err@ is Missing,
        err matches SpawnError::Io(why) ==> err@ == SpawnErrorView::Io(why@),
{
}

} // verus!
