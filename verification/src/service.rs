//! What the service believes about the phones, and what it answers.

use vstd::prelude::*;

use crate::adb::{app_entries, device_views, AdbError, AppEntry};
use crate::notify::{greet, greeting, notification_view, Notification};
use crate::protocol::{texts, App, AppView, Device, DeviceState, DeviceView, RunningApp};
use crate::registry::{remembered, KnownDevice, KnownView, Registry};
use crate::table::{ascending, lemma_precedes_irreflexive, lists, precedes, Table};
use crate::text::same;
use crate::windows::{
    is_open, law_a_phone_that_left_has_no_window, lemma_chosen, one_window_per_app, shows,
    window_args, windows_not_of, windows_of, Launch, OpenWindow, WindowManager,
};

verus! {

broadcast use vstd::string::group_string_axioms;

/// What a list of apps holds.
pub open spec fn app_views(v: Seq<App>) -> Seq<AppView> {
    v.map_values(|a: App| a@)
}

/// What the service believes. `C` is the handle of a process that draws a
/// window.
pub struct State<C> {
    /// The phones it can currently see, by serial.
    pub devices: Table<Device>,
    /// Their apps. Listing takes seconds, and the menu is opened far more often
    /// than apps are installed.
    pub apps: Table<Vec<App>>,
    pub windows: WindowManager<C>,
    pub registry: Registry,
}

/// Something to do or to tell, found while the phones were compared with what
/// the service believed.
pub enum Effect {
    /// Store this list of known devices.
    Save(Registry),
    /// Tell that a device changed its state.
    Changed(Device),
}

pub enum EffectView {
    Save(Map<Seq<char>, KnownView>),
    Changed(DeviceView),
}

impl View for Effect {
    type V = EffectView;

    open spec fn view(&self) -> EffectView {
        match self {
            Effect::Save(registry) => EffectView::Save(registry@),
            Effect::Changed(device) => EffectView::Changed(device@),
        }
    }
}

/// Something to do or to tell about a phone that left.
pub enum Farewell<C> {
    /// Kill the process that drew a window, and tell that the app was closed.
    Close { serial: String, package: String, child: C },
    /// Tell that the phone is gone.
    Removed { serial: String },
}

pub enum FarewellView<C> {
    Close { serial: Seq<char>, package: Seq<char>, child: C },
    Removed { serial: Seq<char> },
}

impl<C> View for Farewell<C> {
    type V = FarewellView<C>;

    open spec fn view(&self) -> FarewellView<C> {
        match self {
            Farewell::Close { serial, package, child } => FarewellView::Close {
                serial: serial@,
                package: package@,
                child: *child,
            },
            Farewell::Removed { serial } => FarewellView::Removed { serial: serial@ },
        }
    }
}

/// What came of comparing the phones with what the service believed.
pub struct Sweep<C> {
    /// What to do and tell, in order.
    pub effects: Vec<Effect>,
    /// The serials of the phones that arrived, each with the model it showed.
    pub arrived: Vec<(String, String)>,
    /// The serials of the phones that left, in ascending order.
    pub gone: Vec<String>,
    /// What to do and tell about the phones that left, in order.
    pub farewells: Vec<Farewell<C>>,
}

/// What is known in the middle of a sweep.
pub struct SweepView {
    pub registry: Map<Seq<char>, KnownView>,
    pub devices: Map<Seq<char>, DeviceView>,
    pub effects: Seq<EffectView>,
    pub arrived: Seq<(Seq<char>, Seq<char>)>,
}

/// A device as the service shows it: trusted if it was known before, and, where
/// it reports no model (as over the network), under the name that was recorded
/// for it.
pub open spec fn recognised(registry: Map<Seq<char>, KnownView>, device: DeviceView) -> DeviceView {
    let known = registry.contains_key(device.serial);
    DeviceView {
        trusted: known,
        model: if device.model.len() == 0 && known {
            registry[device.serial].shown()
        } else {
            device.model
        },
        ..device
    }
}

/// What is known once one more device was looked at.
///
/// A phone waiting for the debugging prompt is not yet a device the person owns:
/// only a device that is ready is remembered, with what it told itself. The list
/// of known devices has to be stored wherever that changed it.
pub open spec fn with_device(
    sweep: SweepView,
    believed: Map<Seq<char>, DeviceView>,
    listed: DeviceView,
    now: Seq<char>,
) -> SweepView {
    let device = recognised(sweep.registry, listed);
    let registry = if device.state == DeviceState::Ready {
        remembered(sweep.registry, listed.serial, listed.model, listed.address, now)
    } else {
        sweep.registry
    };
    let saved = if registry != sweep.registry {
        sweep.effects.push(EffectView::Save(registry))
    } else {
        sweep.effects
    };
    SweepView {
        registry,
        devices: sweep.devices.insert(device.serial, device),
        effects: if believed.contains_key(device.serial) && believed[device.serial].state
            != device.state {
            saved.push(EffectView::Changed(device))
        } else {
            saved
        },
        arrived: if believed.contains_key(device.serial) {
            sweep.arrived
        } else {
            sweep.arrived.push((device.serial, device.model))
        },
    }
}

/// What is known once a list of devices was looked at, one after the other.
pub open spec fn swept(
    believed: Map<Seq<char>, DeviceView>,
    registry: Map<Seq<char>, KnownView>,
    seen: Seq<DeviceView>,
    now: Seq<char>,
) -> SweepView
    decreases seen.len(),
{
    if seen.len() == 0 {
        SweepView {
            registry,
            devices: Map::empty(),
            effects: Seq::empty(),
            arrived: Seq::empty(),
        }
    } else {
        with_device(swept(believed, registry, seen.drop_last(), now), believed, seen.last(), now)
    }
}

/// What some effects hold.
pub open spec fn effect_views(v: Seq<Effect>) -> Seq<EffectView> {
    v.map_values(|e: Effect| e@)
}

/// What pairs of strings spell.
pub open spec fn pair_views(v: Seq<(String, String)>) -> Seq<(Seq<char>, Seq<char>)> {
    v.map_values(|p: (String, String)| (p.0@, p.1@))
}

/// The windows that stay open once those of some phones were closed, one phone
/// after the other.
pub open spec fn closed_for<C>(windows: Seq<OpenWindow<C>>, gone: Seq<Seq<char>>) -> Seq<
    OpenWindow<C>,
>
    decreases gone.len(),
{
    if gone.len() == 0 {
        windows
    } else {
        closed_for(windows, gone.drop_last()).filter(windows_not_of(gone.last()))
    }
}

/// Which apps of a phone were open, with their processes, where the windows of
/// some phones are closed one phone after the other.
pub open spec fn partings<C>(windows: Seq<OpenWindow<C>>, gone: Seq<Seq<char>>) -> Seq<
    (Seq<char>, Seq<(Seq<char>, C)>),
> {
    Seq::new(
        gone.len(),
        |i: int|
            (
                gone[i],
                closed_for(windows, gone.take(i)).filter(windows_of(gone[i])).map_values(
                    |w: OpenWindow<C>| (w.0.package, w.1),
                ),
            ),
    )
}

pub open spec fn parting_view<C>(p: (String, Vec<(String, C)>)) -> (
    Seq<char>,
    Seq<(Seq<char>, C)>,
) {
    (p.0@, p.1@.map_values(|a: (String, C)| (a.0@, a.1)))
}

/// What the closed apps of phones hold.
pub open spec fn parting_views<C>(v: Seq<(String, Vec<(String, C)>)>) -> Seq<
    (Seq<char>, Seq<(Seq<char>, C)>),
> {
    v.map_values(|p: (String, Vec<(String, C)>)| parting_view(p))
}

/// What is told of the closed apps of a phone.
pub open spec fn closings<C>(serial: Seq<char>, apps: Seq<(Seq<char>, C)>) -> Seq<FarewellView<C>> {
    apps.map_values(
        |a: (Seq<char>, C)| FarewellView::Close { serial, package: a.0, child: a.1 },
    )
}

/// What is done and told about phones that left: of each in turn, first that its
/// apps were closed, then that it is gone.
pub open spec fn farewells_in<C>(partings: Seq<(Seq<char>, Seq<(Seq<char>, C)>)>) -> Seq<
    FarewellView<C>,
>
    decreases partings.len(),
{
    if partings.len() == 0 {
        Seq::empty()
    } else {
        let (serial, apps) = partings.last();
        farewells_in(partings.drop_last()) + closings(serial, apps).push(
            FarewellView::Removed { serial },
        )
    }
}

/// What some farewells hold.
pub open spec fn farewell_views<C>(v: Seq<Farewell<C>>) -> Seq<FarewellView<C>> {
    v.map_values(|f: Farewell<C>| f@)
}

/// What to do and to tell about phones that left, given the apps that were closed
/// with each.
pub fn farewells<C>(parted: Vec<(String, Vec<(String, C)>)>) -> (r: Vec<Farewell<C>>)
    ensures
        farewell_views(r@) == farewells_in(parting_views(parted@)),
{
    let ghost all = parting_views(parted@);
    let mut parted = parted;
    let mut r: Vec<Farewell<C>> = Vec::new();
    let ghost mut n: int = 0;
    assert(all.take(0) == Seq::<(Seq<char>, Seq<(Seq<char>, C)>)>::empty());
    assert(all.skip(0) == all);
    while parted.len() > 0
        invariant
            0 <= n <= all.len(),
            parting_views(parted@) == all.skip(n),
            farewell_views(r@) == farewells_in(all.take(n)),
        decreases parted@.len(),
    {
        let ghost left = parting_views(parted@);
        let ghost told = farewell_views(r@);
        let (serial, apps) = parted.remove(0);
        let ghost closed = parting_view((serial, apps)).1;
        proof {
            assert(left.len() == all.len() - n);
            assert(left[0] == (serial@, closed));
            assert(all[n] == left[0]);
            assert(parting_views(parted@) == left.skip(1));
            assert(left.skip(1) == all.skip(n + 1));
            assert(all.take(n + 1).drop_last() == all.take(n));
            assert(all.take(n + 1).last() == all[n]);
        }
        let mut apps = apps;
        let ghost mut m: int = 0;
        assert(closings(serial@, closed.take(0)) == Seq::<FarewellView<C>>::empty());
        assert(closed.skip(0) == closed);
        while apps.len() > 0
            invariant
                0 <= m <= closed.len(),
                apps@.map_values(|a: (String, C)| (a.0@, a.1)) == closed.skip(m),
                farewell_views(r@) == told + closings(serial@, closed.take(m)),
            decreases apps@.len(),
        {
            let ghost rest = apps@.map_values(|a: (String, C)| (a.0@, a.1));
            let ghost before = farewell_views(r@);
            let (package, child) = apps.remove(0);
            let farewell = Farewell::Close { serial: serial.clone(), package, child };
            proof {
                assert(rest.len() == closed.len() - m);
                assert(rest[0] == (package@, child));
                assert(closed[m] == rest[0]);
                assert(apps@.map_values(|a: (String, C)| (a.0@, a.1)) == rest.skip(1));
                assert(rest.skip(1) == closed.skip(m + 1));
                assert(closings(serial@, closed.take(m + 1)) == closings(
                    serial@,
                    closed.take(m),
                ).push(farewell@));
                m = m + 1;
            }
            r.push(farewell);
            assert(farewell_views(r@) == before.push(farewell@));
        }
        assert(closed.take(m) == closed);
        let ghost before = farewell_views(r@);
        let farewell = Farewell::Removed { serial };
        r.push(farewell);
        proof {
            assert(farewell_views(r@) == before.push(farewell@));
            n = n + 1;
        }
    }
    assert(all.take(n) == all);
    r
}

impl<C> State<C> {
    /// The phones that the service can see.
    pub open spec fn device_map(self) -> Map<Seq<char>, DeviceView> {
        self.devices@.map_values(|d: Device| d@)
    }

    /// The apps that the service has listed, by phone.
    pub open spec fn app_map(self) -> Map<Seq<char>, Seq<AppView>> {
        self.apps@.map_values(|v: Vec<App>| app_views(v@))
    }

    /// Nothing is seen yet.
    pub fn new(registry: Registry) -> (r: State<C>)
        ensures
            r.device_map() == Map::<Seq<char>, DeviceView>::empty(),
            r.app_map() == Map::<Seq<char>, Seq<AppView>>::empty(),
            r.windows@ == Seq::<OpenWindow<C>>::empty(),
            r.registry@ == registry@,
    {
        let r = State {
            devices: Table::new(),
            apps: Table::new(),
            windows: WindowManager::new(),
            registry,
        };
        assert(r.device_map() =~= Map::<Seq<char>, DeviceView>::empty());
        assert(r.app_map() =~= Map::<Seq<char>, Seq<AppView>>::empty());
        r
    }

    /// Looks at one of the devices that adb lists.
    fn observe(
        &mut self,
        listed: &Device,
        now: &str,
        fresh: &mut Table<Device>,
        effects: &mut Vec<Effect>,
        arrived: &mut Vec<(String, String)>,
    )
        ensures
            final(self).devices == old(self).devices,
            final(self).apps == old(self).apps,
            final(self).windows == old(self).windows,
            ({
                let before = SweepView {
                    registry: old(self).registry@,
                    devices: old(fresh)@.map_values(|d: Device| d@),
                    effects: effect_views(old(effects)@),
                    arrived: pair_views(old(arrived)@),
                };
                let after = with_device(before, old(self).device_map(), listed@, now@);
                &&& final(self).registry@ == after.registry
                &&& final(fresh)@.map_values(|d: Device| d@) == after.devices
                &&& effect_views(final(effects)@) == after.effects
                &&& pair_views(final(arrived)@) == after.arrived
            }),
    {
        let ghost first = effect_views(effects@);
        let ghost shown = fresh@;
        let ghost came = pair_views(arrived@);
        let mut device = listed.clone();
        device.trusted = self.registry.is_known(device.serial.as_str());
        if device.model.as_str().is_empty() {
            if let Some(known) = self.registry.get(device.serial.as_str()) {
                device.model = known.shown();
            }
        }
        assert(device@ == recognised(old(self).registry@, listed@));
        if device.state == DeviceState::Ready {
            let serial = listed.serial.as_str();
            let model = listed.model.as_str();
            let address = listed.address.as_str();
            let learnt = self.registry.learns(serial, model, address, now);
            self.registry.remember(serial, model, address, now);
            if learnt {
                let list = self.registry.clone();
                effects.push(Effect::Save(list));
                assert(effect_views(effects@) == first.push(EffectView::Save(self.registry@)));
            }
        }
        let ghost second = effect_views(effects@);
        let news = match self.devices.get(device.serial.as_str()) {
            None => None,
            Some(before) => Some(before.state != device.state),
        };
        match news {
            None => {
                let entry = (device.serial.clone(), device.model.clone());
                arrived.push(entry);
                assert(pair_views(arrived@) == came.push((device@.serial, device@.model)));
            },
            Some(changed) => {
                if changed {
                    effects.push(Effect::Changed(device.clone()));
                    assert(effect_views(effects@) == second.push(EffectView::Changed(device@)));
                }
            },
        }
        let serial = device.serial.clone();
        let ghost view = device@;
        fresh.insert(serial, device);
        assert(fresh@.map_values(|d: Device| d@) =~= shown.map_values(|d: Device| d@).insert(
            view.serial,
            view,
        ));
    }

    /// Closes the windows of phones that left: hands out, for each of the phones in
    /// order, the apps that were open with their processes.
    pub fn close_gone(&mut self, gone: &Vec<String>) -> (r: Vec<(String, Vec<(String, C)>)>)
        ensures
            final(self).windows@ == closed_for(old(self).windows@, texts(gone@)),
            parting_views(r@) == partings(old(self).windows@, texts(gone@)),
            final(self).devices == old(self).devices,
            final(self).apps == old(self).apps,
            final(self).registry == old(self).registry,
    {
        let ghost open = self.windows@;
        let ghost names = texts(gone@);
        let mut r: Vec<(String, Vec<(String, C)>)> = Vec::new();
        assert(names.take(0) == Seq::<Seq<char>>::empty());
        for i in 0..gone.len()
            invariant
                names == texts(gone@),
                self.windows@ == closed_for(open, names.take(i as int)),
                parting_views(r@) == partings(open, names).take(i as int),
                self.devices == old(self).devices,
                self.apps == old(self).apps,
                self.registry == old(self).registry,
        {
            let ghost before = parting_views(r@);
            let closed = self.windows.stop_all(gone[i].as_str());
            let entry = (gone[i].clone(), closed);
            r.push(entry);
            proof {
                assert(names.take(i + 1).drop_last() == names.take(i as int));
                assert(names.take(i + 1).last() == gone@[i as int]@);
                assert(parting_views(r@) == before.push(parting_view(entry)));
                assert(parting_view(entry) == partings(open, names)[i as int]);
            }
        }
        assert(names.take(names.len() as int) == names);
        assert(partings(open, names).take(names.len() as int) == partings(open, names));
        r
    }

    /// Whether a phone in sight is not ready: it may become so without anybody
    /// being told, as where the person accepts the debugging prompt.
    pub fn any_waiting(&self) -> (r: bool)
        ensures
            r == exists|k: Seq<char>| #[trigger]
                self.device_map().contains_key(k) && self.device_map()[k].state
                    != DeviceState::Ready,
    {
        let rows = self.devices.rows();
        let ghost listed = rows@.map_values(|p: (&String, &Device)| (p.0@, *p.1));
        for i in 0..rows.len()
            invariant
                listed == rows@.map_values(|p: (&String, &Device)| (p.0@, *p.1)),
                lists(listed, self.devices@),
                forall|j: int|
                    0 <= j < i ==> (#[trigger] listed[j]).1.state == DeviceState::Ready,
        {
            assert(listed[i as int] == (rows@[i as int].0@, *rows@[i as int].1));
            if rows[i].1.state != DeviceState::Ready {
                assert(self.devices@.contains_key(listed[i as int].0));
                assert(self.device_map().contains_key(listed[i as int].0));
                return true;
            }
        }
        assert forall|k: Seq<char>| #[trigger]
            self.device_map().contains_key(k) implies self.device_map()[k].state
            == DeviceState::Ready by {
            assert(self.devices@.contains_key(k));
            let i = choose|i: int| 0 <= i < listed.len() && listed[i].0 == k;
            assert(self.devices@[listed[i].0] == listed[i].1);
        }
        false
    }

    /// Compares what adb sees with what the service believes, believes what adb
    /// sees, closes the windows of the phones that left, and says what changed.
    ///
    /// Everything funnels through here, so there is one place where a device is
    /// considered to have arrived or left. Where adb could not be asked, nothing
    /// changes. `now` is the stamp of this moment.
    pub fn refresh_devices(&mut self, seen: Result<Vec<Device>, AdbError>, now: &str) -> (r: Sweep<
        C,
    >)
        ensures
            match seen {
                Err(_) => {
                    &&& final(self).device_map() == old(self).device_map()
                    &&& final(self).app_map() == old(self).app_map()
                    &&& final(self).registry@ == old(self).registry@
                    &&& r.effects@.len() == 0
                    &&& r.arrived@.len() == 0
                    &&& r.gone@.len() == 0
                    &&& r.farewells@.len() == 0
                    &&& final(self).windows@ == old(self).windows@
                },
                Ok(list) => {
                    let believed = old(self).device_map();
                    let sweep = swept(
                        believed,
                        old(self).registry@,
                        device_views(list@),
                        now@,
                    );
                    let left = believed.dom().difference(sweep.devices.dom());
                    &&& final(self).registry@ == sweep.registry
                    &&& final(self).device_map() == sweep.devices
                    // The app list belongs to a device that is no longer here;
                    // keeping it would show a menu for a phone that is gone.
                    &&& final(self).app_map() == old(self).app_map().remove_keys(left)
                    &&& effect_views(r.effects@) == sweep.effects
                    &&& pair_views(r.arrived@) == sweep.arrived
                    &&& ascending(texts(r.gone@))
                    &&& texts(r.gone@).no_duplicates()
                    &&& texts(r.gone@).to_set() == left
                    // The processes would die on their own, but only after
                    // seconds of frozen windows.
                    &&& final(self).windows@ == closed_for(old(self).windows@, texts(r.gone@))
                    &&& farewell_views(r.farewells@) == farewells_in(
                        partings(old(self).windows@, texts(r.gone@)),
                    )
                },
            },
    {
        let mut effects: Vec<Effect> = Vec::new();
        let mut arrived: Vec<(String, String)> = Vec::new();
        let mut gone: Vec<String> = Vec::new();
        let seen = match seen {
            Ok(list) => list,
            Err(_) => {
                return Sweep { effects, arrived, gone, farewells: Vec::new() };
            },
        };
        let ghost views = device_views(seen@);
        let ghost believed = self.device_map();
        let mut fresh: Table<Device> = Table::new();
        proof {
            assert(views.take(0) == Seq::<DeviceView>::empty());
            assert(effect_views(effects@) == Seq::<EffectView>::empty());
            assert(pair_views(arrived@) == Seq::<(Seq<char>, Seq<char>)>::empty());
            assert(fresh@.map_values(|d: Device| d@) =~= Map::<Seq<char>, DeviceView>::empty());
        }
        for i in 0..seen.len()
            invariant
                views == device_views(seen@),
                believed == old(self).device_map(),
                self.devices == old(self).devices,
                self.apps == old(self).apps,
                self.windows == old(self).windows,
                ({
                    let sweep = swept(
                        believed,
                        old(self).registry@,
                        views.take(i as int),
                        now@,
                    );
                    &&& self.registry@ == sweep.registry
                    &&& fresh@.map_values(|d: Device| d@) == sweep.devices
                    &&& effect_views(effects@) == sweep.effects
                    &&& pair_views(arrived@) == sweep.arrived
                }),
        {
            proof {
                assert(views.take(i + 1).drop_last() == views.take(i as int));
                assert(views.take(i + 1).last() == seen@[i as int]@);
            }
            self.observe(&seen[i], now, &mut fresh, &mut effects, &mut arrived);
        }
        assert(views.take(views.len() as int) == views);
        let ghost shown = fresh@.map_values(|d: Device| d@);
        gone = absent(&self.devices, &fresh);
        let ghost left = believed.dom().difference(shown.dom());
        proof {
            assert(texts(gone@).to_set() =~= left);
            lemma_ascending_differ(texts(gone@));
        }
        self.devices = fresh;
        let ghost apps = self.app_map();
        for i in 0..gone.len()
            invariant
                self.devices == fresh,
                self.windows == old(self).windows,
                self.registry@ == swept(believed, old(self).registry@, views, now@).registry,
                self.app_map() == apps.remove_keys(texts(gone@).take(i as int).to_set()),
        {
            let ghost before = self.apps@;
            let ghost names = texts(gone@);
            self.apps.remove(gone[i].as_str());
            proof {
                assert(self.app_map() =~= before.map_values(|v: Vec<App>| app_views(v@)).remove(
                    names[i as int],
                ));
                lemma_take_one_more(names, i as int);
                assert(self.app_map() =~= apps.remove_keys(names.take(i + 1).to_set()));
            }
        }
        assert(texts(gone@).take(gone@.len() as int) == texts(gone@));
        let farewells = farewells(self.close_gone(&gone));
        Sweep { effects, arrived, gone, farewells }
    }
}

proof fn lemma_ascending_differ(names: Seq<Seq<char>>)
    requires
        ascending(names),
    ensures
        names.no_duplicates(),
{
    assert forall|i: int, j: int|
        0 <= i < names.len() && 0 <= j < names.len() && i != j implies names[i] != names[j] by {
        lemma_precedes_irreflexive(names[i]);
        assert(if i < j {
            precedes(names[i], names[j])
        } else {
            precedes(names[j], names[i])
        });
    }
}

proof fn lemma_take_one_more(names: Seq<Seq<char>>, i: int)
    requires
        0 <= i < names.len(),
    ensures
        names.take(i + 1).to_set() == names.take(i).to_set().insert(names[i]),
{
    let one = names.take(i + 1);
    assert forall|k: Seq<char>| one.to_set().contains(k) == #[trigger] names.take(
        i,
    ).to_set().insert(names[i]).contains(k) by {
        if one.contains(k) {
            let j = choose|j: int| 0 <= j < one.len() && one[j] == k;
            if j < i {
                assert(names.take(i)[j] == k);
            }
        }
        if names.take(i).contains(k) {
            let j = choose|j: int| 0 <= j < i && names.take(i)[j] == k;
            assert(one[j] == k);
        }
        assert(one[i] == names[i]);
    }
    assert(one.to_set() =~= names.take(i).to_set().insert(names[i]));
}

/// The keys of one table that another lacks.
fn absent(from: &Table<Device>, other: &Table<Device>) -> (r: Vec<String>)
    ensures
        ascending(texts(r@)),
        forall|k: Seq<char>| #[trigger]
            texts(r@).contains(k) <==> from@.contains_key(k) && !other@.contains_key(k),
{
    let rows = from.rows();
    let ghost listed = rows@.map_values(|p: (&String, &Device)| (p.0@, *p.1));
    let ghost keys = listed.map_values(|r: (Seq<char>, Device)| r.0);
    let ghost lacks = |k: Seq<char>| !other@.contains_key(k);
    let mut r: Vec<String> = Vec::new();
    reveal(Seq::filter);
    assert(keys.take(0) == Seq::<Seq<char>>::empty());
    for i in 0..rows.len()
        invariant
            listed == rows@.map_values(|p: (&String, &Device)| (p.0@, *p.1)),
            keys == listed.map_values(|r: (Seq<char>, Device)| r.0),
            lacks == (|k: Seq<char>| !other@.contains_key(k)),
            texts(r@) == keys.take(i as int).filter(lacks),
    {
        let ghost before = texts(r@);
        proof {
            reveal(Seq::filter);
            assert(keys[i as int] == rows@[i as int].0@);
            assert(keys.take(i + 1).drop_last() == keys.take(i as int));
            assert(keys.take(i + 1).last() == keys[i as int]);
        }
        if !other.contains_key(rows[i].0.as_str()) {
            let key = rows[i].0.clone();
            r.push(key);
            assert(texts(r@) == before.push(key@));
        }
    }
    proof {
        assert(keys.take(keys.len() as int) == keys);
        lemma_chosen_ascend(keys, lacks);
        assert forall|k: Seq<char>| #[trigger] texts(r@).contains(k) <==> from@.contains_key(k)
            && !other@.contains_key(k) by {
            if texts(r@).contains(k) {
                keys.lemma_filter_contains_rev(lacks, k);
                let i = choose|i: int| 0 <= i < keys.len() && keys[i] == k;
                assert(listed[i].0 == k);
                let j = choose|j: int| 0 <= j < texts(r@).len() && texts(r@)[j] == k;
                keys.lemma_filter_pred(lacks, j);
            }
            if from@.contains_key(k) && !other@.contains_key(k) {
                let i = choose|i: int| 0 <= i < listed.len() && listed[i].0 == k;
                assert(keys[i] == k);
                keys.lemma_filter_contains(lacks, i);
            }
        }
    }
    r
}

/// Texts chosen from others in ascending order are in ascending order.
proof fn lemma_chosen_ascend(keys: Seq<Seq<char>>, p: spec_fn(Seq<char>) -> bool)
    requires
        ascending(keys),
    ensures
        ascending(keys.filter(p)),
    decreases keys.len(),
{
    reveal(Seq::filter);
    if keys.len() > 0 {
        let rest = keys.drop_last();
        assert(ascending(rest));
        lemma_chosen_ascend(rest, p);
        let kept = rest.filter(p);
        if p(keys.last()) {
            let all = kept.push(keys.last());
            assert forall|i: int, j: int| 0 <= i < j < all.len() implies precedes(
                #[trigger] all[i],
                #[trigger] all[j],
            ) by {
                if j == kept.len() {
                    assert(kept.contains(kept[i]));
                    rest.lemma_filter_contains_rev(p, kept[i]);
                    let k = choose|k: int| 0 <= k < rest.len() && rest[k] == kept[i];
                    assert(keys[k] == kept[i]);
                    assert(precedes(keys[k], keys[keys.len() - 1]));
                }
            }
        }
    }
}

/// A request that names a phone, before it is served: the phone, or why it
/// cannot be served.
pub open spec fn asked(
    devices: Map<Seq<char>, DeviceView>,
    serial: Seq<char>,
) -> Result<DeviceView, Seq<char>> {
    if devices.contains_key(serial) {
        Ok(devices[serial])
    } else {
        Err("no hay ningún dispositivo con el serial "@ + serial)
    }
}

/// A request that needs a phone to be ready.
pub open spec fn asked_ready(
    devices: Map<Seq<char>, DeviceView>,
    serial: Seq<char>,
) -> Result<DeviceView, Seq<char>> {
    match asked(devices, serial) {
        Ok(device) if device.state != DeviceState::Ready => Err(
            "el dispositivo está "@ + device.state.name(),
        ),
        other => other,
    }
}

/// A request that needs to read from a phone. Where the phone still waits for
/// the person, it says so in words that tell them where to look.
pub open spec fn asked_readable(
    devices: Map<Seq<char>, DeviceView>,
    serial: Seq<char>,
) -> Result<DeviceView, Seq<char>> {
    match asked(devices, serial) {
        Ok(device) if device.state == DeviceState::Unauthorized => Err(
            "el teléfono todavía no aceptó la depuración USB: mirá la pantalla del dispositivo"@,
        ),
        _ => asked_ready(devices, serial),
    }
}

/// What it takes to answer which apps a phone has.
pub enum AppListing {
    /// They are known.
    Cached(Vec<App>),
    /// The phone has to be asked.
    Ask,
}

/// An app to be listed, as the phone reports it. There are no icons yet.
pub open spec fn listed_app(entry: AppEntry) -> AppView {
    AppView { package: entry.0, label: entry.1, system: entry.2, icon: Seq::empty() }
}

/// The name of an app: the label that the phone gave it, or its package where
/// the phone was not asked yet or does not have it.
pub open spec fn label_of(apps: Seq<AppView>, package: Seq<char>) -> Seq<char>
    decreases apps.len(),
{
    if apps.len() == 0 {
        package
    } else if apps[0].package == package {
        apps[0].label
    } else {
        label_of(apps.drop_first(), package)
    }
}

/// The apps listed for a phone, if any.
pub open spec fn listed_for(
    apps: Map<Seq<char>, Seq<AppView>>,
    serial: Seq<char>,
) -> Seq<AppView> {
    if apps.contains_key(serial) {
        apps[serial]
    } else {
        Seq::empty()
    }
}

/// What it takes to open an app.
pub enum AppLaunch {
    /// Its window is open already, drawn by this process.
    AlreadyOpen(u32),
    /// scrcpy has to be started with these arguments, for a window under this
    /// name.
    Spawn { args: Vec<String>, label: String },
}

/// A known device as the settings screen lists it: serial, name, when it was
/// first seen, and where it last answered.
pub type KnownRow = (String, String, String, String);

pub open spec fn known_row_view(r: KnownRow) -> (Seq<char>, Seq<char>, Seq<char>, Seq<char>) {
    (r.0@, r.1@, r.2@, r.3@)
}

pub open spec fn known_row(r: (Seq<char>, KnownView)) -> (
    Seq<char>,
    Seq<char>,
    Seq<char>,
    Seq<char>,
) {
    (r.0, r.1.shown(), r.1.first_seen, r.1.last_address)
}

fn cloned_apps(apps: &Vec<App>) -> (r: Vec<App>)
    ensures
        app_views(r@) == app_views(apps@),
{
    let mut r: Vec<App> = Vec::new();
    for i in 0..apps.len()
        invariant
            app_views(r@) == app_views(apps@).take(i as int),
    {
        let ghost before = app_views(r@);
        let app = apps[i].clone();
        r.push(app);
        assert(app_views(r@) == before.push(app@));
    }
    assert(app_views(r@) == app_views(apps@));
    r
}

impl<C> State<C> {
    /// The phone with a serial.
    pub fn device(&self, serial: &str) -> (r: Result<&Device, String>)
        ensures
            match r {
                Ok(device) => asked(self.device_map(), serial@) == Ok::<_, Seq<char>>(device@),
                Err(message) => asked(self.device_map(), serial@) == Err::<DeviceView, _>(
                    message@,
                ),
            },
    {
        match self.devices.get(serial) {
            Some(device) => Ok(device),
            None => Err("no hay ningún dispositivo con el serial ".to_owned().concat(serial)),
        }
    }

    /// The phone with a serial, if it is ready.
    pub fn ready_device(&self, serial: &str) -> (r: Result<&Device, String>)
        ensures
            match r {
                Ok(device) => asked_ready(self.device_map(), serial@) == Ok::<_, Seq<char>>(
                    device@,
                ),
                Err(message) => asked_ready(self.device_map(), serial@) == Err::<DeviceView, _>(
                    message@,
                ),
            },
    {
        let device = match self.device(serial) {
            Ok(device) => device,
            Err(message) => {
                return Err(message);
            },
        };
        if device.state != DeviceState::Ready {
            return Err("el dispositivo está ".to_owned().concat(device.state.as_str()));
        }
        Ok(device)
    }

    /// The phone with a serial, if it can be read from.
    pub fn readable_device(&self, serial: &str) -> (r: Result<&Device, String>)
        ensures
            match r {
                Ok(device) => asked_readable(self.device_map(), serial@) == Ok::<_, Seq<char>>(
                    device@,
                ),
                Err(message) => asked_readable(self.device_map(), serial@) == Err::<DeviceView, _>(
                    message@,
                ),
            },
    {
        if let Ok(device) = self.device(serial) {
            if device.state == DeviceState::Unauthorized {
                return Err(
                    "el teléfono todavía no aceptó la depuración USB: mirá la pantalla del dispositivo".to_owned(),
                );
            }
        }
        self.ready_device(serial)
    }

    /// Every phone the service can currently see, in the order of the serials.
    pub fn list_devices(&self) -> (r: Vec<Device>)
        ensures
            exists|rows: Seq<(Seq<char>, DeviceView)>| #[trigger]
                lists(rows, self.device_map()) && device_views(r@) == rows.map_values(
                    |row: (Seq<char>, DeviceView)| row.1,
                ),
    {
        let rows = self.devices.rows();
        let ghost raw = rows@.map_values(|p: (&String, &Device)| (p.0@, *p.1));
        let ghost seen = raw.map_values(|p: (Seq<char>, Device)| (p.0, p.1@));
        let ghost second = |row: (Seq<char>, DeviceView)| row.1;
        let mut r: Vec<Device> = Vec::new();
        for i in 0..rows.len()
            invariant
                raw == rows@.map_values(|p: (&String, &Device)| (p.0@, *p.1)),
                seen == raw.map_values(|p: (Seq<char>, Device)| (p.0, p.1@)),
                second == (|row: (Seq<char>, DeviceView)| row.1),
                device_views(r@) == seen.map_values(second).take(i as int),
        {
            let ghost before = device_views(r@);
            let device = rows[i].1.clone();
            r.push(device);
            assert(device_views(r@) == before.push(device@));
        }
        proof {
            lemma_lists_views(raw, self.devices@);
            assert(seen.map_values(second).take(rows@.len() as int) == seen.map_values(second));
            assert(lists(seen, self.device_map()));
            assert(device_views(r@) == seen.map_values(|row: (Seq<char>, DeviceView)| row.1));
        }
        r
    }

    /// Phones this person has accepted before, whether or not they are here now,
    /// in the order of the serials.
    pub fn list_known_devices(&self) -> (r: Vec<KnownRow>)
        ensures
            exists|rows: Seq<(Seq<char>, KnownView)>| #[trigger]
                lists(rows, self.registry@) && r@.map_values(|k: KnownRow| known_row_view(k))
                    == rows.map_values(|row: (Seq<char>, KnownView)| known_row(row)),
    {
        let rows = self.registry.all();
        let ghost seen = rows@.map_values(|p: (&String, &KnownDevice)| (p.0@, p.1@));
        let ghost shown = |k: KnownRow| known_row_view(k);
        let ghost told = |row: (Seq<char>, KnownView)| known_row(row);
        let mut r: Vec<KnownRow> = Vec::new();
        for i in 0..rows.len()
            invariant
                seen == rows@.map_values(|p: (&String, &KnownDevice)| (p.0@, p.1@)),
                shown == (|k: KnownRow| known_row_view(k)),
                told == (|row: (Seq<char>, KnownView)| known_row(row)),
                r@.map_values(shown) == seen.map_values(told).take(i as int),
        {
            let ghost before = r@.map_values(shown);
            let (serial, known) = rows[i];
            let row = (
                serial.clone(),
                known.shown(),
                known.first_seen.clone(),
                known.last_address.clone(),
            );
            assert(shown(row) == told(seen[i as int]));
            r.push(row);
            assert(r@.map_values(shown) == before.push(shown(row)));
        }
        assert(seen.map_values(told).take(rows@.len() as int) == seen.map_values(told));
        r
    }

    /// What it takes to answer which apps a phone has. `refresh` forces the phone
    /// to be asked: there is no signal when something is installed.
    pub fn list_apps(&self, serial: &str, refresh: bool) -> (r: Result<AppListing, String>)
        ensures
            match r {
                Ok(AppListing::Cached(apps)) => {
                    &&& asked_readable(self.device_map(), serial@) is Ok
                    &&& !refresh
                    &&& self.app_map().contains_key(serial@)
                    &&& app_views(apps@) == self.app_map()[serial@]
                },
                Ok(AppListing::Ask) => {
                    &&& asked_readable(self.device_map(), serial@) is Ok
                    &&& refresh || !self.app_map().contains_key(serial@)
                },
                Err(message) => asked_readable(self.device_map(), serial@) == Err::<DeviceView, _>(
                    message@,
                ),
            },
    {
        match self.readable_device(serial) {
            Ok(_) => {},
            Err(message) => {
                return Err(message);
            },
        }
        if !refresh {
            if let Some(apps) = self.apps.get(serial) {
                return Ok(AppListing::Cached(cloned_apps(apps)));
            }
        }
        Ok(AppListing::Ask)
    }

    /// Keeps the apps that a phone reported, and gives them.
    pub fn store_apps(&mut self, serial: &str, listed: Vec<(String, String, bool)>) -> (r: Vec<App>)
        ensures
            app_views(r@) == app_entries(listed@).map_values(|e: AppEntry| listed_app(e)),
            final(self).app_map() == old(self).app_map().insert(serial@, app_views(r@)),
            final(self).devices == old(self).devices,
            final(self).windows == old(self).windows,
            final(self).registry == old(self).registry,
    {
        let ghost entries = app_entries(listed@);
        let ghost told = |e: AppEntry| listed_app(e);
        let mut apps: Vec<App> = Vec::new();
        for i in 0..listed.len()
            invariant
                entries == app_entries(listed@),
                told == (|e: AppEntry| listed_app(e)),
                app_views(apps@) == entries.map_values(told).take(i as int),
                *self == *old(self),
        {
            let ghost before = app_views(apps@);
            let app = App {
                package: listed[i].0.clone(),
                label: listed[i].1.clone(),
                system: listed[i].2,
                icon: String::new(),
            };
            assert(app@ == told(entries[i as int]));
            apps.push(app);
            assert(app_views(apps@) == before.push(app@));
        }
        assert(entries.map_values(told).take(listed@.len() as int) == entries.map_values(told));
        let ghost kept = self.apps@;
        let copy = cloned_apps(&apps);
        self.apps.insert(serial.to_owned(), copy);
        assert(self.app_map() =~= kept.map_values(|v: Vec<App>| app_views(v@)).insert(
            serial@,
            app_views(apps@),
        ));
        apps
    }

    /// The name to show for an app of a phone.
    fn label(&self, serial: &str, package: &str) -> (r: String)
        ensures
            r@ == label_of(listed_for(self.app_map(), serial@), package@),
    {
        let apps = match self.apps.get(serial) {
            Some(apps) => apps,
            None => {
                return package.to_owned();
            },
        };
        let ghost views = app_views(apps@);
        assert(views.skip(0) == views);
        for i in 0..apps.len()
            invariant
                views == app_views(apps@),
                views == listed_for(self.app_map(), serial@),
                label_of(views, package@) == label_of(views.skip(i as int), package@),
        {
            assert(views.skip(i as int)[0] == apps@[i as int]@);
            if same(apps[i].package.as_str(), package) {
                return apps[i].label.clone();
            }
            assert(views.skip(i as int).drop_first() == views.skip(i + 1));
        }
        package.to_owned()
    }

    /// What it takes to open an app of a phone in its own window.
    pub fn launch_app(&self, serial: &str, package: &str) -> (r: Result<AppLaunch, String>)
        ensures
            match (asked_ready(self.device_map(), serial@), r) {
                (Err(why), Err(message)) => message@ == why,
                (Ok(_), Ok(AppLaunch::AlreadyOpen(pid))) => exists|i: int|
                    0 <= i < self.windows@.len() && shows(
                        #[trigger] self.windows@[i],
                        serial@,
                        package@,
                    ) && pid == self.windows@[i].0.pid,
                (Ok(device), Ok(AppLaunch::Spawn { args, label })) => {
                    &&& !is_open(self.windows@, serial@, package@)
                    &&& label@ == label_of(listed_for(self.app_map(), serial@), package@)
                    &&& texts(args@) == window_args(serial@, package@, label@, device.transport)
                },
                _ => false,
            },
            r is Ok ==> one_window_per_app(self.windows@),
    {
        let transport = match self.ready_device(serial) {
            Ok(device) => device.transport,
            Err(message) => {
                return Err(message);
            },
        };
        let label = self.label(serial, package);
        match self.windows.launch(serial, package, label.as_str(), transport) {
            Launch::AlreadyOpen(pid) => Ok(AppLaunch::AlreadyOpen(pid)),
            Launch::Spawn(args) => Ok(AppLaunch::Spawn { args, label }),
        }
    }

    /// Every app open in a window right now, in the order in which they were
    /// opened.
    pub fn list_running(&self) -> (r: Vec<RunningApp>)
        ensures
            r@.map_values(|app: RunningApp| app@) == self.windows@.map_values(
                |w: OpenWindow<C>| w.0,
            ),
    {
        let open = self.windows.list();
        let ghost views = open@.map_values(|app: &RunningApp| app@);
        let ghost shown = |app: RunningApp| app@;
        let mut r: Vec<RunningApp> = Vec::new();
        for i in 0..open.len()
            invariant
                views == open@.map_values(|app: &RunningApp| app@),
                shown == (|app: RunningApp| app@),
                r@.map_values(shown) == views.take(i as int),
        {
            let ghost before = r@.map_values(shown);
            let app = open[i].clone();
            assert(app@ == views[i as int]);
            r.push(app);
            assert(r@.map_values(shown) == before.push(app@));
        }
        assert(views.take(open@.len() as int) == views);
        r
    }

    /// Renames a device. Says whether it is known; if it is, the list has to be
    /// stored.
    pub fn set_alias(&mut self, serial: &str, alias: &str) -> (r: bool)
        ensures
            r == old(self).registry@.contains_key(serial@),
            final(self).registry@ == if r {
                old(self).registry@.insert(
                    serial@,
                    KnownView { alias: alias@, ..old(self).registry@[serial@] },
                )
            } else {
                old(self).registry@
            },
            final(self).devices == old(self).devices,
            final(self).apps == old(self).apps,
            final(self).windows == old(self).windows,
    {
        self.registry.set_alias(serial, alias)
    }

    /// Drops a device from the known list. Says whether it was there; if it was,
    /// the list has to be stored.
    pub fn forget_device(&mut self, serial: &str) -> (r: bool)
        ensures
            r == old(self).registry@.contains_key(serial@),
            final(self).registry@ == old(self).registry@.remove(serial@),
            final(self).devices == old(self).devices,
            final(self).apps == old(self).apps,
            final(self).windows == old(self).windows,
    {
        self.registry.forget(serial)
    }

    /// What to tell about a phone that arrived under a model: the phone, and what
    /// to show the person. Nothing, if it left again meanwhile.
    pub fn announce(&self, serial: &str, model: &str) -> (r: Option<(Device, Option<Notification>)>)
        ensures
            match r {
                Some(news) => {
                    &&& self.device_map().contains_key(serial@)
                    &&& news.0@ == self.device_map()[serial@]
                    &&& notification_view(news.1) == greeting(model@, news.0.state)
                },
                None => !self.device_map().contains_key(serial@),
            },
    {
        match self.devices.get(serial) {
            Some(device) => Some((device.clone(), greet(model, device.state))),
            None => None,
        }
    }
}

/// Rows that list a table list what its values hold.
proof fn lemma_lists_views(raw: Seq<(Seq<char>, Device)>, table: Map<Seq<char>, Device>)
    requires
        lists(raw, table),
    ensures
        lists(
            raw.map_values(|p: (Seq<char>, Device)| (p.0, p.1@)),
            table.map_values(|d: Device| d@),
        ),
{
    let seen = raw.map_values(|p: (Seq<char>, Device)| (p.0, p.1@));
    let views = table.map_values(|d: Device| d@);
    assert(seen.map_values(|r: (Seq<char>, DeviceView)| r.0) == raw.map_values(
        |r: (Seq<char>, Device)| r.0,
    ));
    assert forall|i: int| 0 <= i < seen.len() implies views.contains_key(#[trigger] seen[i].0)
        && views[seen[i].0] == seen[i].1 by {
        assert(raw[i].0 == seen[i].0);
    }
    assert forall|k: Seq<char>| #[trigger] views.contains_key(k) implies exists|i: int|
        0 <= i < seen.len() && seen[i].0 == k by {
        assert(table.contains_key(k));
        let i = choose|i: int| 0 <= i < raw.len() && raw[i].0 == k;
        assert(seen[i].0 == k);
    }
}

/// The devices that a sweep looked at are the devices that the service believes
/// in afterwards, each as it was listed last.
pub proof fn law_what_adb_lists_is_believed(
    believed: Map<Seq<char>, DeviceView>,
    registry: Map<Seq<char>, KnownView>,
    seen: Seq<DeviceView>,
    now: Seq<char>,
)
    ensures
        ({
            let sweep = swept(believed, registry, seen, now);
            &&& forall|k: Seq<char>| #[trigger]
                sweep.devices.contains_key(k) <==> exists|i: int|
                    0 <= i < seen.len() && (#[trigger] seen[i]).serial == k
            &&& forall|k: Seq<char>| #[trigger]
                sweep.devices.contains_key(k) ==> exists|i: int|
                    {
                        &&& 0 <= i < seen.len()
                        &&& (#[trigger] seen[i]).serial == k
                        &&& sweep.devices[k] == DeviceView {
                            model: sweep.devices[k].model,
                            trusted: sweep.devices[k].trusted,
                            ..seen[i]
                        }
                        &&& forall|j: int|
                            i < j < seen.len() ==> (#[trigger] seen[j]).serial != k
                    }
        }),
    decreases seen.len(),
{
    if seen.len() > 0 {
        let rest = seen.drop_last();
        let before = swept(believed, registry, rest, now);
        let after = swept(believed, registry, seen, now);
        law_what_adb_lists_is_believed(believed, registry, rest, now);
        let last = seen.len() - 1;
        assert(seen[last].serial == seen.last().serial);
        assert forall|k: Seq<char>| #[trigger] after.devices.contains_key(k) implies exists|i: int|
            {
                &&& 0 <= i < seen.len()
                &&& (#[trigger] seen[i]).serial == k
                &&& after.devices[k] == DeviceView {
                    model: after.devices[k].model,
                    trusted: after.devices[k].trusted,
                    ..seen[i]
                }
                &&& forall|j: int| i < j < seen.len() ==> (#[trigger] seen[j]).serial != k
            } by {
            if k == seen.last().serial {
                assert(seen[last].serial == k);
            } else {
                assert(before.devices.contains_key(k));
                let i = choose|i: int|
                    {
                        &&& 0 <= i < rest.len()
                        &&& (#[trigger] rest[i]).serial == k
                        &&& before.devices[k] == DeviceView {
                            model: before.devices[k].model,
                            trusted: before.devices[k].trusted,
                            ..rest[i]
                        }
                        &&& forall|j: int| i < j < rest.len() ==> (#[trigger] rest[j]).serial != k
                    };
                assert(seen[i] == rest[i]);
                assert forall|j: int| i < j < seen.len() implies (
                #[trigger] seen[j]).serial != k by {
                    if j < last {
                        assert(rest[j] == seen[j]);
                    }
                }
            }
        }
        assert forall|k: Seq<char>|
            (exists|i: int| 0 <= i < seen.len() && (#[trigger] seen[i]).serial
                == k) implies #[trigger] after.devices.contains_key(k) by {
            let i = choose|i: int| 0 <= i < seen.len() && (#[trigger] seen[i]).serial == k;
            if i < last {
                assert(rest[i].serial == k);
            }
        }
    }
}

/// A sweep forgets no device, and records one only where it is ready: a phone
/// that waits for the debugging prompt does not become known.
pub proof fn law_only_ready_phones_become_known(
    believed: Map<Seq<char>, DeviceView>,
    registry: Map<Seq<char>, KnownView>,
    seen: Seq<DeviceView>,
    now: Seq<char>,
)
    ensures
        forall|k: Seq<char>| #[trigger]
            swept(believed, registry, seen, now).registry.contains_key(k) <==> {
                ||| registry.contains_key(k)
                ||| exists|i: int|
                    0 <= i < seen.len() && (#[trigger] seen[i]).serial == k && seen[i].state
                        == DeviceState::Ready
            },
    decreases seen.len(),
{
    if seen.len() > 0 {
        let rest = seen.drop_last();
        let after = swept(believed, registry, seen, now).registry;
        law_only_ready_phones_become_known(believed, registry, rest, now);
        let last = seen.len() - 1;
        assert forall|k: Seq<char>| #[trigger] after.contains_key(k) <==> {
            ||| registry.contains_key(k)
            ||| exists|i: int|
                0 <= i < seen.len() && (#[trigger] seen[i]).serial == k && seen[i].state
                    == DeviceState::Ready
        } by {
            let before = swept(believed, registry, rest, now).registry;
            if before.contains_key(k) && !registry.contains_key(k) {
                let i = choose|i: int|
                    0 <= i < rest.len() && (#[trigger] rest[i]).serial == k && rest[i].state
                        == DeviceState::Ready;
                assert(seen[i].serial == k);
            }
            if exists|i: int|
                0 <= i < seen.len() && (#[trigger] seen[i]).serial == k && seen[i].state
                    == DeviceState::Ready {
                let i = choose|i: int|
                    0 <= i < seen.len() && (#[trigger] seen[i]).serial == k && seen[i].state
                        == DeviceState::Ready;
                if i < last {
                    assert(rest[i].serial == k);
                }
            }
            assert(seen[last] == seen.last());
        }
    }
}

/// No unknown phone is listed again after it was listed as ready.
pub open spec fn met_once(registry: Map<Seq<char>, KnownView>, seen: Seq<DeviceView>) -> bool {
    forall|i: int, j: int|
        0 <= i < j < seen.len() && (#[trigger] seen[i]).state == DeviceState::Ready
            && !registry.contains_key(seen[i].serial) ==> seen[i].serial != (
        #[trigger] seen[j]).serial
}

/// A phone is trusted exactly where it was known before the sweep: to see a
/// phone for the first time does not make it trusted.
pub proof fn law_trusted_means_known_before(
    believed: Map<Seq<char>, DeviceView>,
    registry: Map<Seq<char>, KnownView>,
    seen: Seq<DeviceView>,
    now: Seq<char>,
)
    requires
        met_once(registry, seen),
    ensures
        forall|k: Seq<char>|
            swept(believed, registry, seen, now).devices.contains_key(k) ==> (#[trigger] swept(
                believed,
                registry,
                seen,
                now,
            ).devices[k]).trusted == registry.contains_key(k),
    decreases seen.len(),
{
    if seen.len() > 0 {
        let rest = seen.drop_last();
        let before = swept(believed, registry, rest, now);
        let after = swept(believed, registry, seen, now);
        assert(met_once(registry, rest));
        law_trusted_means_known_before(believed, registry, rest, now);
        law_only_ready_phones_become_known(believed, registry, rest, now);
        let last = seen.last().serial;
        assert forall|k: Seq<char>| after.devices.contains_key(k) implies (
        #[trigger] after.devices[k]).trusted == registry.contains_key(k) by {
            if k == last {
                if before.registry.contains_key(k) && !registry.contains_key(k) {
                    let i = choose|i: int|
                        0 <= i < rest.len() && (#[trigger] rest[i]).serial == k && rest[i].state
                            == DeviceState::Ready;
                    assert(seen[i].serial != seen[seen.len() - 1].serial);
                }
            } else {
                assert(after.devices[k] == before.devices[k]);
            }
        }
    }
}

/// Whether an effect tells that a device is in a state now.
pub open spec fn tells(effect: EffectView, serial: Seq<char>, state: DeviceState) -> bool {
    match effect {
        EffectView::Changed(device) => device.serial == serial && device.state == state,
        EffectView::Save(_) => false,
    }
}

/// Whether an effect tells a change of a state that was not that one before.
pub open spec fn is_news(effect: EffectView, believed: Map<Seq<char>, DeviceView>) -> bool {
    match effect {
        EffectView::Changed(device) => believed.contains_key(device.serial)
            && believed[device.serial].state != device.state,
        EffectView::Save(_) => true,
    }
}

/// A change of state is told wherever a phone is listed in another state than it
/// was believed to be in, and nowhere else.
pub proof fn law_a_change_of_state_is_told(
    believed: Map<Seq<char>, DeviceView>,
    registry: Map<Seq<char>, KnownView>,
    seen: Seq<DeviceView>,
    now: Seq<char>,
)
    ensures
        ({
            let effects = swept(believed, registry, seen, now).effects;
            &&& forall|e: int|
                0 <= e < effects.len() ==> is_news(#[trigger] effects[e], believed)
            &&& forall|i: int|
                0 <= i < seen.len() && believed.contains_key((#[trigger] seen[i]).serial)
                    && believed[seen[i].serial].state != seen[i].state ==> exists|e: int|
                    0 <= e < effects.len() && tells(
                        #[trigger] effects[e],
                        seen[i].serial,
                        seen[i].state,
                    )
        }),
    decreases seen.len(),
{
    if seen.len() > 0 {
        let rest = seen.drop_last();
        let before = swept(believed, registry, rest, now).effects;
        let after = swept(believed, registry, seen, now).effects;
        law_a_change_of_state_is_told(believed, registry, rest, now);
        assert(before.len() <= after.len());
        assert(forall|e: int| 0 <= e < before.len() ==> after[e] == before[e]);
        assert forall|i: int|
            0 <= i < seen.len() && believed.contains_key((#[trigger] seen[i]).serial)
                && believed[seen[i].serial].state != seen[i].state implies exists|e: int|
            0 <= e < after.len() && tells(#[trigger] after[e], seen[i].serial, seen[i].state) by {
            if i < rest.len() {
                assert(rest[i] == seen[i]);
                let e = choose|e: int|
                    0 <= e < before.len() && tells(
                        #[trigger] before[e],
                        seen[i].serial,
                        seen[i].state,
                    );
                assert(tells(after[e], seen[i].serial, seen[i].state));
            } else {
                assert(tells(after[after.len() - 1], seen[i].serial, seen[i].state));
            }
        }
    }
}

/// A phone arrives where it is listed and was not believed in, and nowhere else.
pub proof fn law_new_phones_arrive(
    believed: Map<Seq<char>, DeviceView>,
    registry: Map<Seq<char>, KnownView>,
    seen: Seq<DeviceView>,
    now: Seq<char>,
)
    ensures
        ({
            let arrived = swept(believed, registry, seen, now).arrived;
            forall|k: Seq<char>|
                (exists|i: int| 0 <= i < arrived.len() && (#[trigger] arrived[i]).0 == k) <==> {
                    &&& #[trigger] swept(believed, registry, seen, now).devices.contains_key(k)
                    &&& !believed.contains_key(k)
                }
        }),
    decreases seen.len(),
{
    if seen.len() > 0 {
        let rest = seen.drop_last();
        let before = swept(believed, registry, rest, now);
        let after = swept(believed, registry, seen, now);
        law_new_phones_arrive(believed, registry, rest, now);
        let n = before.arrived.len();
        assert forall|k: Seq<char>|
            (exists|i: int| 0 <= i < after.arrived.len() && (#[trigger] after.arrived[i]).0
                == k) <==> {
                &&& #[trigger] after.devices.contains_key(k)
                &&& !believed.contains_key(k)
            } by {
            if before.devices.contains_key(k) && !believed.contains_key(k) {
                let i = choose|i: int|
                    0 <= i < n && (#[trigger] before.arrived[i]).0 == k;
                assert(after.arrived[i].0 == k);
            }
            if exists|i: int| 0 <= i < after.arrived.len() && (#[trigger] after.arrived[i]).0 == k {
                let i = choose|i: int|
                    0 <= i < after.arrived.len() && (#[trigger] after.arrived[i]).0 == k;
                if i < n {
                    assert(before.arrived[i].0 == k);
                    assert(before.devices.contains_key(k));
                }
            }
            if k == seen.last().serial && !believed.contains_key(k) {
                assert(after.arrived[n as int].0 == k);
            }
        }
    }
}

/// Whether one of some listed devices settles under which model a device is
/// known.
spec fn settles_model(seen: Seq<DeviceView>, serial: Seq<char>) -> bool {
    exists|i: int|
        0 <= i < seen.len() && (#[trigger] seen[i]).serial == serial && seen[i].state
            == DeviceState::Ready && seen[i].model.len() > 0
}

/// Whether one of some listed devices settles at which address a device is known.
spec fn settles_address(seen: Seq<DeviceView>, serial: Seq<char>) -> bool {
    exists|i: int|
        0 <= i < seen.len() && (#[trigger] seen[i]).serial == serial && seen[i].state
            == DeviceState::Ready && seen[i].address.len() > 0
}

/// What a sweep leaves of a device that it knows: everything but the model and
/// the address.
proof fn lemma_swept_keeps(
    believed: Map<Seq<char>, DeviceView>,
    registry: Map<Seq<char>, KnownView>,
    seen: Seq<DeviceView>,
    now: Seq<char>,
    n: int,
)
    requires
        0 <= n <= seen.len(),
    ensures
        ({
            let part = swept(believed, registry, seen.take(n), now).registry;
            let whole = swept(believed, registry, seen, now).registry;
            &&& forall|k: Seq<char>| #[trigger]
                part.contains_key(k) ==> whole.contains_key(k) && whole[k] == (KnownView {
                    model: whole[k].model,
                    last_address: whole[k].last_address,
                    ..part[k]
                })
            &&& forall|k: Seq<char>| #[trigger]
                registry.contains_key(k) ==> part.contains_key(k)
            &&& forall|k: Seq<char>| #[trigger]
                part.contains_key(k) && !registry.contains_key(k) ==> part[k].alias.len() == 0
            &&& forall|k: Seq<char>| #[trigger]
                part.contains_key(k) <== exists|i: int|
                    0 <= i < n && (#[trigger] seen[i]).serial == k && seen[i].state
                        == DeviceState::Ready
        }),
    decreases seen.len(), n,
{
    law_only_ready_phones_become_known(believed, registry, seen.take(n), now);
    let part = swept(believed, registry, seen.take(n), now).registry;
    assert forall|k: Seq<char>|
        (exists|i: int|
            0 <= i < n && (#[trigger] seen[i]).serial == k && seen[i].state
                == DeviceState::Ready) implies #[trigger] part.contains_key(k) by {
        let i = choose|i: int|
            0 <= i < n && (#[trigger] seen[i]).serial == k && seen[i].state == DeviceState::Ready;
        assert(seen.take(n)[i].serial == k);
    }
    if n < seen.len() {
        let rest = seen.drop_last();
        lemma_swept_keeps(believed, registry, rest, now, n);
        assert(rest.take(n) == seen.take(n));
        let before = swept(believed, registry, rest, now).registry;
        let whole = swept(believed, registry, seen, now).registry;
        assert forall|k: Seq<char>| #[trigger] part.contains_key(k) implies whole.contains_key(k)
            && whole[k] == (KnownView {
            model: whole[k].model,
            last_address: whole[k].last_address,
            ..part[k]
        }) by {
            assert(before.contains_key(k));
        }
    } else {
        assert(seen.take(n) == seen);
        if n > 0 {
            lemma_swept_keeps(believed, registry, seen.drop_last(), now, n - 1);
            assert(seen.drop_last().take(n - 1) == seen.drop_last());
            let before = swept(believed, registry, seen.drop_last(), now).registry;
            assert forall|k: Seq<char>| #[trigger]
                part.contains_key(k) && !registry.contains_key(k) implies part[k].alias.len()
                == 0 by {
                if before.contains_key(k) {
                    assert(before[k].alias.len() == 0);
                }
            }
        }
    }
}

/// Sweeping twice over one list, the known devices are after `n` entries of the
/// second sweep as the whole first one left them, except for what those entries
/// settle: that is as the first sweep had it at the same point.
proof fn lemma_swept_again(
    first: Map<Seq<char>, DeviceView>,
    second: Map<Seq<char>, DeviceView>,
    registry: Map<Seq<char>, KnownView>,
    seen: Seq<DeviceView>,
    now: Seq<char>,
    later: Seq<char>,
    n: int,
)
    requires
        0 <= n <= seen.len(),
    ensures
        ({
            let whole = swept(first, registry, seen, now).registry;
            let part = swept(first, registry, seen.take(n), now).registry;
            let again = swept(second, whole, seen.take(n), later).registry;
            &&& again.dom() == whole.dom()
            &&& forall|k: Seq<char>| #[trigger]
                whole.contains_key(k) ==> again[k] == KnownView {
                    model: if settles_model(seen.take(n), k) {
                        part[k].model
                    } else {
                        whole[k].model
                    },
                    last_address: if settles_address(seen.take(n), k) {
                        part[k].last_address
                    } else {
                        whole[k].last_address
                    },
                    ..whole[k]
                }
        }),
    decreases n,
{
    let whole = swept(first, registry, seen, now).registry;
    let part = swept(first, registry, seen.take(n), now).registry;
    let again = swept(second, whole, seen.take(n), later).registry;
    if n == 0 {
        assert(again == whole);
    } else {
        let m = n - 1;
        let d = seen[m];
        let k = d.serial;
        let before_part = swept(first, registry, seen.take(m), now).registry;
        let before_again = swept(second, whole, seen.take(m), later).registry;
        lemma_swept_again(first, second, registry, seen, now, later, m);
        lemma_swept_keeps(first, registry, seen, now, m);
        lemma_swept_keeps(first, registry, seen, now, n);
        assert(seen.take(n).drop_last() == seen.take(m));
        assert(seen.take(n).last() == d);
        assert forall|x: Seq<char>| #[trigger]
            settles_model(seen.take(n), x) == (settles_model(seen.take(m), x) || (x == k && d.state
                == DeviceState::Ready && d.model.len() > 0)) by {
            if settles_model(seen.take(m), x) {
                let i = choose|i: int|
                    0 <= i < m && (#[trigger] seen.take(m)[i]).serial == x && seen.take(m)[i].state
                        == DeviceState::Ready && seen.take(m)[i].model.len() > 0;
                assert(seen.take(n)[i] == seen.take(m)[i]);
            }
            if settles_model(seen.take(n), x) {
                let i = choose|i: int|
                    0 <= i < n && (#[trigger] seen.take(n)[i]).serial == x && seen.take(n)[i].state
                        == DeviceState::Ready && seen.take(n)[i].model.len() > 0;
                if i < m {
                    assert(seen.take(m)[i] == seen.take(n)[i]);
                }
            }
            assert(seen.take(n)[m] == d);
        }
        assert forall|x: Seq<char>| #[trigger]
            settles_address(seen.take(n), x) == (settles_address(seen.take(m), x) || (x == k
                && d.state == DeviceState::Ready && d.address.len() > 0)) by {
            if settles_address(seen.take(m), x) {
                let i = choose|i: int|
                    0 <= i < m && (#[trigger] seen.take(m)[i]).serial == x && seen.take(m)[i].state
                        == DeviceState::Ready && seen.take(m)[i].address.len() > 0;
                assert(seen.take(n)[i] == seen.take(m)[i]);
            }
            if settles_address(seen.take(n), x) {
                let i = choose|i: int|
                    0 <= i < n && (#[trigger] seen.take(n)[i]).serial == x && seen.take(n)[i].state
                        == DeviceState::Ready && seen.take(n)[i].address.len() > 0;
                if i < m {
                    assert(seen.take(m)[i] == seen.take(n)[i]);
                }
            }
            assert(seen.take(n)[m] == d);
        }
        // What settled a field before also recorded the device.
        if settles_model(seen.take(m), k) || settles_address(
            seen.take(m),
            k,
        ) {
            let i = choose|i: int|
                0 <= i < m && (#[trigger] seen.take(m)[i]).serial == k && seen.take(m)[i].state
                    == DeviceState::Ready;
            assert(seen[i].serial == k);
            assert(before_part.contains_key(k));
        }
        if d.state == DeviceState::Ready {
            assert(seen[m].serial == k);
            assert(part.contains_key(k));
            assert(whole.contains_key(k));
            assert(before_again.contains_key(k));
            assert(again =~= whole.union_prefer_right(before_again).insert(k, again[k]));
            assert(again.dom() =~= whole.dom());
        } else {
            assert(again == before_again);
            assert(part == before_part);
        }
        assert forall|x: Seq<char>| #[trigger] whole.contains_key(x) implies again[x] == (KnownView {
            model: if settles_model(seen.take(n), x) {
                part[x].model
            } else {
                whole[x].model
            },
            last_address: if settles_address(seen.take(n), x) {
                part[x].last_address
            } else {
                whole[x].last_address
            },
            ..whole[x]
        }) by {
            if x != k {
                assert(again[x] == before_again[x]);
                assert(part.contains_key(x) == before_part.contains_key(x));
                assert(part.contains_key(x) ==> part[x] == before_part[x]);
                if settles_model(seen.take(m), x) || settles_address(
                    seen.take(m),
                    x,
                ) {
                    let i = choose|i: int|
                        0 <= i < m && (#[trigger] seen.take(m)[i]).serial == x && seen.take(
                            m,
                        )[i].state == DeviceState::Ready;
                    assert(seen[i].serial == x);
                }
            }
        }
    }
}

/// A sweep over phones that are believed to be in the state they are in, and of
/// which those that are ready tell nothing that is not known, finds nothing to
/// tell or to store.
proof fn lemma_nothing_new(
    believed: Map<Seq<char>, DeviceView>,
    registry: Map<Seq<char>, KnownView>,
    seen: Seq<DeviceView>,
    now: Seq<char>,
)
    requires
        forall|i: int|
            0 <= i < seen.len() ==> believed.contains_key((#[trigger] seen[i]).serial)
                && believed[seen[i].serial].state == seen[i].state && (seen[i].state
                == DeviceState::Ready ==> is_recorded(registry, seen[i])),
    ensures
        swept(believed, registry, seen, now).effects.len() == 0,
        swept(believed, registry, seen, now).registry == registry,
    decreases seen.len(),
{
    if seen.len() > 0 {
        let rest = seen.drop_last();
        assert forall|i: int| 0 <= i < rest.len() implies believed.contains_key(
            (#[trigger] rest[i]).serial,
        ) && believed[rest[i].serial].state == rest[i].state && (rest[i].state
            == DeviceState::Ready ==> is_recorded(registry, rest[i])) by {
            assert(rest[i] == seen[i]);
        }
        lemma_nothing_new(believed, registry, rest, now);
        let d = seen.last();
        assert(seen[seen.len() - 1] == d);
        if d.state == DeviceState::Ready {
            let after = remembered(registry, d.serial, d.model, d.address, now);
            assert(after[d.serial] == registry[d.serial]);
            assert(after =~= registry);
        }
    }
}

/// Whether a device is known by all that it tells.
pub open spec fn is_recorded(registry: Map<Seq<char>, KnownView>, device: DeviceView) -> bool {
    &&& registry.contains_key(device.serial)
    &&& device.model.len() > 0 ==> registry[device.serial].model == device.model
    &&& device.address.len() > 0 ==> registry[device.serial].last_address == device.address
}

/// Of two entries for one serial, neither has another state than the other, nor,
/// where they are ready, another model or another address.
pub open spec fn one_story_each(seen: Seq<DeviceView>) -> bool {
    forall|i: int, j: int|
        0 <= i < j < seen.len() && (#[trigger] seen[i]).serial == (#[trigger] seen[j]).serial ==> {
            &&& seen[i].state == seen[j].state
            &&& seen[i].state == DeviceState::Ready && seen[i].model.len() > 0
                && seen[j].model.len() > 0 ==> seen[i].model == seen[j].model
            &&& seen[i].state == DeviceState::Ready && seen[i].address.len() > 0
                && seen[j].address.len() > 0 ==> seen[i].address == seen[j].address
        }
}

/// What a ready phone tells is known after a sweep.
proof fn lemma_recorded(
    believed: Map<Seq<char>, DeviceView>,
    registry: Map<Seq<char>, KnownView>,
    seen: Seq<DeviceView>,
    now: Seq<char>,
)
    requires
        one_story_each(seen),
    ensures
        forall|i: int|
            0 <= i < seen.len() && (#[trigger] seen[i]).state == DeviceState::Ready ==> is_recorded(
                swept(believed, registry, seen, now).registry,
                seen[i],
            ),
    decreases seen.len(),
{
    if seen.len() > 0 {
        let rest = seen.drop_last();
        let before = swept(believed, registry, rest, now).registry;
        let after = swept(believed, registry, seen, now).registry;
        assert forall|i: int, j: int|
            0 <= i < j < rest.len() && (#[trigger] rest[i]).serial == (
            #[trigger] rest[j]).serial implies {
            &&& rest[i].state == rest[j].state
            &&& rest[i].state == DeviceState::Ready && rest[i].model.len() > 0
                && rest[j].model.len() > 0 ==> rest[i].model == rest[j].model
            &&& rest[i].state == DeviceState::Ready && rest[i].address.len() > 0
                && rest[j].address.len() > 0 ==> rest[i].address == rest[j].address
        } by {
            assert(rest[i] == seen[i] && rest[j] == seen[j]);
        }
        lemma_recorded(believed, registry, rest, now);
        let last = seen.len() - 1;
        assert forall|i: int|
            0 <= i < seen.len() && (#[trigger] seen[i]).state
                == DeviceState::Ready implies is_recorded(after, seen[i]) by {
            if i < last {
                assert(rest[i] == seen[i]);
                assert(is_recorded(before, rest[i]));
                if seen[last].serial == seen[i].serial {
                    assert(seen[last].state == DeviceState::Ready);
                }
            }
        }
    }
}

/// A second look at the same phones changes nothing: nobody arrives, nobody
/// leaves, and the known devices and the states stay as they are. All that a
/// phone can gain is to be trusted.
pub proof fn law_a_second_look_changes_nothing(
    believed: Map<Seq<char>, DeviceView>,
    registry: Map<Seq<char>, KnownView>,
    seen: Seq<DeviceView>,
    now: Seq<char>,
    later: Seq<char>,
)
    ensures
        ({
            let first = swept(believed, registry, seen, now);
            let second = swept(first.devices, first.registry, seen, later);
            &&& second.arrived.len() == 0
            &&& second.registry == first.registry
            &&& second.devices.dom() == first.devices.dom()
            &&& forall|k: Seq<char>| #[trigger]
                first.devices.contains_key(k) ==> second.devices[k].state
                    == first.devices[k].state && (first.devices[k].trusted
                    ==> second.devices[k].trusted)
        }),
{
    let first = swept(believed, registry, seen, now);
    let second = swept(first.devices, first.registry, seen, later);
    lemma_same_states(believed, registry, now, first.devices, first.registry, later, seen);
    law_new_phones_arrive(first.devices, first.registry, seen, later);
    lemma_swept_again(believed, first.devices, registry, seen, now, later, seen.len() as int);
    assert(seen.take(seen.len() as int) == seen);
    assert(second.registry =~= first.registry);
    assert(second.devices.dom() =~= first.devices.dom());
    if second.arrived.len() > 0 {
        let k = second.arrived[0].0;
        assert(second.devices.contains_key(k) && !first.devices.contains_key(k));
    }
    lemma_trust_grows(believed, registry, seen, now);
    lemma_known_are_trusted(first.devices, first.registry, seen, later);
    assert forall|k: Seq<char>| #[trigger]
        first.devices.contains_key(k) implies second.devices[k].state == first.devices[k].state
        && (first.devices[k].trusted ==> second.devices[k].trusted) by {
        assert(second.devices.contains_key(k));
    }
}

/// Which phones a sweep believes in, and in which states, rests on the list alone.
proof fn lemma_same_states(
    believed: Map<Seq<char>, DeviceView>,
    registry: Map<Seq<char>, KnownView>,
    now: Seq<char>,
    other_believed: Map<Seq<char>, DeviceView>,
    other_registry: Map<Seq<char>, KnownView>,
    later: Seq<char>,
    seen: Seq<DeviceView>,
)
    ensures
        ({
            let one = swept(believed, registry, seen, now).devices;
            let two = swept(other_believed, other_registry, seen, later).devices;
            &&& forall|k: Seq<char>| #[trigger] one.contains_key(k) == two.contains_key(k)
            &&& forall|k: Seq<char>| #[trigger]
                one.contains_key(k) ==> one[k].state == two[k].state
        }),
    decreases seen.len(),
{
    if seen.len() > 0 {
        let rest = seen.drop_last();
        lemma_same_states(
            believed,
            registry,
            now,
            other_believed,
            other_registry,
            later,
            rest,
        );
        let before = swept(believed, registry, rest, now).devices;
        let one = swept(believed, registry, seen, now).devices;
        let two = swept(other_believed, other_registry, seen, later).devices;
        assert forall|k: Seq<char>| #[trigger] one.contains_key(k) == two.contains_key(k) && (
        one.contains_key(k) ==> one[k].state == two[k].state) by {
            if k != seen.last().serial {
                assert(one.contains_key(k) == before.contains_key(k));
            }
        }
    }
}

/// A second look at phones that have not changed tells nothing and stores nothing.
/// Left out are lists that contradict themselves, with two entries for one phone
/// that differ.
pub proof fn law_a_second_look_finds_nothing_new(
    believed: Map<Seq<char>, DeviceView>,
    registry: Map<Seq<char>, KnownView>,
    seen: Seq<DeviceView>,
    now: Seq<char>,
    later: Seq<char>,
)
    requires
        one_story_each(seen),
    ensures
        ({
            let first = swept(believed, registry, seen, now);
            swept(first.devices, first.registry, seen, later).effects.len() == 0
        }),
{
    let first = swept(believed, registry, seen, now);
    law_what_adb_lists_is_believed(believed, registry, seen, now);
    lemma_recorded(believed, registry, seen, now);
    assert forall|i: int| 0 <= i < seen.len() implies first.devices.contains_key(
        (#[trigger] seen[i]).serial,
    ) && first.devices[seen[i].serial].state == seen[i].state && (seen[i].state
        == DeviceState::Ready ==> is_recorded(first.registry, seen[i])) by {
        let k = seen[i].serial;
        assert(first.devices.contains_key(k));
        let j = choose|j: int|
            {
                &&& 0 <= j < seen.len()
                &&& (#[trigger] seen[j]).serial == k
                &&& first.devices[k] == DeviceView {
                    model: first.devices[k].model,
                    trusted: first.devices[k].trusted,
                    ..seen[j]
                }
            };
        assert(seen[j].state == seen[i].state);
    }
    lemma_nothing_new(first.devices, first.registry, seen, later);
}

/// The list of known devices that is stored once some effects were carried out.
pub open spec fn stored(
    before: Map<Seq<char>, KnownView>,
    effects: Seq<EffectView>,
) -> Map<Seq<char>, KnownView>
    decreases effects.len(),
{
    if effects.len() == 0 {
        before
    } else {
        match effects.last() {
            EffectView::Save(list) => list,
            EffectView::Changed(_) => stored(before, effects.drop_last()),
        }
    }
}

/// What a sweep learns is stored: a list that was stored before is stored after,
/// so a new phone, a new model and a new address all outlive the service.
pub proof fn law_what_is_learnt_is_stored(
    believed: Map<Seq<char>, DeviceView>,
    registry: Map<Seq<char>, KnownView>,
    seen: Seq<DeviceView>,
    now: Seq<char>,
)
    ensures
        ({
            let sweep = swept(believed, registry, seen, now);
            stored(registry, sweep.effects) == sweep.registry
        }),
    decreases seen.len(),
{
    if seen.len() > 0 {
        let rest = seen.drop_last();
        law_what_is_learnt_is_stored(believed, registry, rest, now);
        let before = swept(believed, registry, rest, now);
        let after = swept(believed, registry, seen, now);
        let saved = if after.registry != before.registry {
            before.effects.push(EffectView::Save(after.registry))
        } else {
            before.effects
        };
        assert(saved.len() > before.effects.len() ==> saved.drop_last() == before.effects);
        assert(stored(registry, saved) == after.registry);
        if after.effects.len() > saved.len() {
            assert(after.effects.drop_last() == saved);
        }
    }
}

/// A phone that does not tell its model keeps the one that was recorded, whatever
/// name the person gave it, and the one it is shown under is never recorded.
pub proof fn law_a_silent_phone_keeps_its_model(
    believed: Map<Seq<char>, DeviceView>,
    registry: Map<Seq<char>, KnownView>,
    seen: Seq<DeviceView>,
    now: Seq<char>,
    serial: Seq<char>,
)
    requires
        registry.contains_key(serial),
        forall|i: int|
            0 <= i < seen.len() && (#[trigger] seen[i]).serial == serial && seen[i].state
                == DeviceState::Ready ==> seen[i].model.len() == 0,
    ensures
        ({
            let after = swept(believed, registry, seen, now).registry;
            &&& after.contains_key(serial)
            &&& after[serial].model == registry[serial].model
            &&& after[serial].alias == registry[serial].alias
        }),
    decreases seen.len(),
{
    if seen.len() > 0 {
        let rest = seen.drop_last();
        assert forall|i: int|
            0 <= i < rest.len() && (#[trigger] rest[i]).serial == serial && rest[i].state
                == DeviceState::Ready implies rest[i].model.len() == 0 by {
            assert(rest[i] == seen[i]);
        }
        law_a_silent_phone_keeps_its_model(believed, registry, rest, now, serial);
        assert(seen[seen.len() - 1] == seen.last());
    }
}

/// Whoever is trusted after a sweep is known after it.
proof fn lemma_trust_grows(
    believed: Map<Seq<char>, DeviceView>,
    registry: Map<Seq<char>, KnownView>,
    seen: Seq<DeviceView>,
    now: Seq<char>,
)
    ensures
        forall|k: Seq<char>|
            swept(believed, registry, seen, now).devices.contains_key(k) && (#[trigger] swept(
                believed,
                registry,
                seen,
                now,
            ).devices[k]).trusted ==> swept(believed, registry, seen, now).registry.contains_key(k),
    decreases seen.len(),
{
    if seen.len() > 0 {
        let rest = seen.drop_last();
        lemma_trust_grows(believed, registry, rest, now);
        let before = swept(believed, registry, rest, now);
        let after = swept(believed, registry, seen, now);
        assert forall|k: Seq<char>|
            after.devices.contains_key(k) && (
            #[trigger] after.devices[k]).trusted implies after.registry.contains_key(k) by {
            if k != seen.last().serial {
                assert(before.devices[k] == after.devices[k]);
            }
        }
    }
}

/// Whoever is known before a sweep and listed in it is trusted after it.
proof fn lemma_known_are_trusted(
    believed: Map<Seq<char>, DeviceView>,
    registry: Map<Seq<char>, KnownView>,
    seen: Seq<DeviceView>,
    now: Seq<char>,
)
    ensures
        forall|k: Seq<char>|
            swept(believed, registry, seen, now).devices.contains_key(k) && registry.contains_key(k)
                ==> (#[trigger] swept(believed, registry, seen, now).devices[k]).trusted,
    decreases seen.len(),
{
    if seen.len() > 0 {
        let rest = seen.drop_last();
        lemma_known_are_trusted(believed, registry, rest, now);
        law_only_ready_phones_become_known(believed, registry, rest, now);
        let before = swept(believed, registry, rest, now);
        let after = swept(believed, registry, seen, now);
        assert forall|k: Seq<char>|
            after.devices.contains_key(k) && registry.contains_key(k) implies (
        #[trigger] after.devices[k]).trusted by {
            if k != seen.last().serial {
                assert(before.devices[k] == after.devices[k]);
            }
        }
    }
}

/// Every window belongs to a phone in sight: if that held before a sweep, it
/// holds once the windows of the phones that left are closed.
pub proof fn law_windows_belong_to_phones_in_sight<C>(
    windows: Seq<OpenWindow<C>>,
    believed: Map<Seq<char>, DeviceView>,
    devices: Map<Seq<char>, DeviceView>,
    gone: Seq<Seq<char>>,
)
    requires
        forall|i: int|
            0 <= i < windows.len() ==> believed.contains_key((#[trigger] windows[i]).0.serial),
        gone.to_set() == believed.dom().difference(devices.dom()),
    ensures
        forall|i: int|
            0 <= i < closed_for(windows, gone).len() ==> devices.contains_key(
                (#[trigger] closed_for(windows, gone)[i]).0.serial,
            ),
{
    let kept = closed_for(windows, gone);
    assert forall|i: int| 0 <= i < kept.len() implies devices.contains_key(
        (#[trigger] kept[i]).0.serial,
    ) by {
        lemma_closed_for(windows, gone, i);
        let j = choose|j: int| 0 <= j < windows.len() && windows[j] == kept[i];
        assert(believed.contains_key(windows[j].0.serial));
        assert(!gone.to_set().contains(kept[i].0.serial));
    }
}

proof fn lemma_closed_for<C>(windows: Seq<OpenWindow<C>>, gone: Seq<Seq<char>>, i: int)
    requires
        0 <= i < closed_for(windows, gone).len(),
    ensures
        windows.contains(closed_for(windows, gone)[i]),
        !gone.contains(closed_for(windows, gone)[i].0.serial),
    decreases gone.len(),
{
    let kept = closed_for(windows, gone);
    if gone.len() > 0 {
        let before = closed_for(windows, gone.drop_last());
        let others = windows_not_of::<C>(gone.last());
        assert(kept.contains(kept[i]));
        before.lemma_filter_contains_rev(others, kept[i]);
        before.lemma_filter_pred(others, i);
        let j = choose|j: int| 0 <= j < before.len() && before[j] == kept[i];
        lemma_closed_for(windows, gone.drop_last(), j);
        if gone.contains(kept[i].0.serial) {
            let k = choose|k: int| 0 <= k < gone.len() && gone[k] == kept[i].0.serial;
            if k < gone.len() - 1 {
                assert(gone.drop_last()[k] == kept[i].0.serial);
            }
        }
    }
}

/// Once a sweep closed the windows of the phones that left, no app of theirs is
/// open, and the apps of the others are as open as before.
pub proof fn law_phones_that_left_have_no_window<C>(
    windows: Seq<OpenWindow<C>>,
    gone: Seq<Seq<char>>,
)
    ensures
        forall|s: Seq<char>, p: Seq<char>| #[trigger]
            is_open(closed_for(windows, gone), s, p) <==> !gone.contains(s) && is_open(
                windows,
                s,
                p,
            ),
    decreases gone.len(),
{
    if gone.len() > 0 {
        let rest = gone.drop_last();
        law_phones_that_left_have_no_window(windows, rest);
        law_a_phone_that_left_has_no_window(closed_for(windows, rest), gone.last());
        assert forall|s: Seq<char>, p: Seq<char>| #[trigger]
            is_open(closed_for(windows, gone), s, p) <==> !gone.contains(s) && is_open(
            windows,
            s,
            p,
        ) by {
            lemma_contains_last(gone, s);
            assert(is_open(closed_for(windows, rest), s, p) <==> !rest.contains(s) && is_open(
                windows,
                s,
                p,
            ));
        }
    }
}

proof fn lemma_contains_last(s: Seq<Seq<char>>, x: Seq<char>)
    requires
        s.len() > 0,
    ensures
        s.contains(x) == (s.drop_last().contains(x) || x == s.last()),
{
    if s.contains(x) {
        let i = choose|i: int| 0 <= i < s.len() && s[i] == x;
        if i < s.len() - 1 {
            assert(s.drop_last()[i] == x);
        }
    }
    if s.drop_last().contains(x) {
        let i = choose|i: int| 0 <= i < s.len() - 1 && s.drop_last()[i] == x;
        assert(s[i] == x);
    }
    assert(s[s.len() - 1] == s.last());
}

/// What is told of a window that is closed because its phone left.
pub open spec fn closing<C>(w: OpenWindow<C>) -> FarewellView<C> {
    FarewellView::Close { serial: w.0.serial, package: w.0.package, child: w.1 }
}

/// Every window of a phone that left is told as closed, and told before the phone
/// is told gone; no other window is told.
pub proof fn law_apps_are_told_closed_before_their_phone_is_gone<C>(
    windows: Seq<OpenWindow<C>>,
    gone: Seq<Seq<char>>,
)
    requires
        gone.no_duplicates(),
    ensures
        ({
            let told = farewells_in(partings(windows, gone));
            &&& forall|i: int|
                0 <= i < windows.len() && gone.contains((#[trigger] windows[i]).0.serial)
                    ==> told.contains(closing(windows[i]))
            &&& forall|j: int|
                0 <= j < told.len() ==> match #[trigger] told[j] {
                    FarewellView::Close { serial, .. } => gone.contains(serial) && exists|i: int|
                        0 <= i < windows.len() && told[j] == closing(#[trigger] windows[i]),
                    FarewellView::Removed { serial } => gone.contains(serial),
                }
            &&& forall|k: int|
                0 <= k < gone.len() ==> told.contains(
                    FarewellView::Removed { serial: #[trigger] gone[k] },
                )
            &&& forall|j: int, k: int|
                0 <= j < told.len() && 0 <= k < told.len() ==> match (
                    #[trigger] told[j],
                    #[trigger] told[k],
                ) {
                    (
                        FarewellView::Close { serial: s, .. },
                        FarewellView::Removed { serial: t },
                    ) => s == t ==> j < k,
                    _ => true,
                }
        }),
    decreases gone.len(),
{
    let told = farewells_in(partings(windows, gone));
    if gone.len() > 0 {
        let rest = gone.drop_last();
        let serial = gone.last();
        let open = closed_for(windows, rest);
        let mine = windows_of::<C>(serial);
        let before = farewells_in(partings(windows, rest));
        let last = open.filter(mine).map_values(|w: OpenWindow<C>| closing(w));
        let gone_at = before.len() + last.len();
        lemma_last_parting(windows, gone);
        assert(rest.no_duplicates());
        law_apps_are_told_closed_before_their_phone_is_gone(windows, rest);
        assert(!rest.contains(serial)) by {
            if rest.contains(serial) {
                let i = choose|i: int| 0 <= i < rest.len() && rest[i] == serial;
                assert(gone[i] == gone[gone.len() - 1]);
            }
        }
        assert(told[gone_at as int] == (FarewellView::<C>::Removed { serial }));
        // Each part of what is told.
        assert forall|j: int| 0 <= j < before.len() implies told[j] == #[trigger] before[j] by {}
        assert forall|j: int| 0 <= j < last.len() implies #[trigger] told[before.len() + j]
            == last[j] && gone.contains(serial) && exists|i: int|
            0 <= i < windows.len() && last[j] == closing(#[trigger] windows[i]) by {
            let w = open.filter(mine)[j];
            open.lemma_filter_pred(mine, j);
            assert(open.filter(mine).contains(w));
            open.lemma_filter_contains_rev(mine, w);
            let x = choose|x: int| 0 <= x < open.len() && open[x] == w;
            lemma_closed_for(windows, rest, x);
            let i = choose|i: int| 0 <= i < windows.len() && windows[i] == w;
            assert(last[j] == closing(windows[i]));
            assert(gone[gone.len() - 1] == serial);
        }
        assert forall|i: int|
            0 <= i < windows.len() && gone.contains(
                (#[trigger] windows[i]).0.serial,
            ) implies told.contains(closing(windows[i])) by {
            let w = windows[i];
            lemma_contains_last(gone, w.0.serial);
            if rest.contains(w.0.serial) {
                assert(before.contains(closing(w)));
                let j = choose|j: int| 0 <= j < before.len() && before[j] == closing(w);
                assert(told[j] == closing(w));
            } else {
                lemma_stays_open(windows, rest, i);
                let x = choose|x: int| 0 <= x < open.len() && open[x] == w;
                open.lemma_filter_contains(mine, x);
                let y = choose|y: int| 0 <= y < open.filter(mine).len() && open.filter(mine)[y] == w;
                assert(last[y] == closing(w));
                assert(told[before.len() + y] == closing(w));
            }
        }
        assert forall|j: int| 0 <= j < told.len() implies match #[trigger] told[j] {
            FarewellView::Close { serial, .. } => gone.contains(serial) && exists|i: int|
                0 <= i < windows.len() && told[j] == closing(#[trigger] windows[i]),
            FarewellView::Removed { serial } => gone.contains(serial),
        } by {
            if j < before.len() {
                assert(told[j] == before[j]);
                match before[j] {
                    FarewellView::Close { serial: s, .. } => lemma_contains_last(gone, s),
                    FarewellView::Removed { serial: s } => lemma_contains_last(gone, s),
                }
            } else if j < gone_at {
                assert(told[before.len() + (j - before.len())] == last[j - before.len()]);
            } else {
                assert(gone[gone.len() - 1] == serial);
            }
        }
        assert forall|k: int| 0 <= k < gone.len() implies told.contains(
            FarewellView::Removed { serial: #[trigger] gone[k] },
        ) by {
            if k < rest.len() {
                let f = FarewellView::<C>::Removed { serial: rest[k] };
                assert(before.contains(f));
                let j = choose|j: int| 0 <= j < before.len() && before[j] == f;
                assert(told[j] == f);
            }
        }
        assert forall|j: int, k: int| 0 <= j < told.len() && 0 <= k < told.len() implies match (
            #[trigger] told[j],
            #[trigger] told[k],
        ) {
            (FarewellView::Close { serial: s, .. }, FarewellView::Removed { serial: t }) => s == t
                ==> j < k,
            _ => true,
        } by {
            if k < before.len() {
                assert(told[k] == before[k]);
                if j < before.len() {
                    assert(told[j] == before[j]);
                } else if j < gone_at {
                    assert(told[before.len() + (j - before.len())] == last[j - before.len()]);
                }
            } else if k < gone_at {
                assert(told[before.len() + (k - before.len())] == last[k - before.len()]);
            }
        }
    }
}

/// A window of a phone that did not leave stays open.
proof fn lemma_stays_open<C>(windows: Seq<OpenWindow<C>>, gone: Seq<Seq<char>>, i: int)
    requires
        0 <= i < windows.len(),
        !gone.contains(windows[i].0.serial),
    ensures
        closed_for(windows, gone).contains(windows[i]),
    decreases gone.len(),
{
    if gone.len() > 0 {
        let before = closed_for(windows, gone.drop_last());
        let others = windows_not_of::<C>(gone.last());
        lemma_contains_last(gone, windows[i].0.serial);
        lemma_stays_open(windows, gone.drop_last(), i);
        let j = choose|j: int| 0 <= j < before.len() && before[j] == windows[i];
        before.lemma_filter_contains(others, j);
    }
}

/// Whether two farewells tell the same: that one app of a phone was closed, or
/// that one phone is gone.
pub open spec fn same_news<C>(a: FarewellView<C>, b: FarewellView<C>) -> bool {
    match (a, b) {
        (
            FarewellView::Close { serial: s, package: p, .. },
            FarewellView::Close { serial: t, package: q, .. },
        ) => s == t && p == q,
        (FarewellView::Removed { serial: s }, FarewellView::Removed { serial: t }) => s == t,
        _ => false,
    }
}

/// Nothing is told twice about phones that left: neither that an app was closed
/// nor that a phone is gone.
pub proof fn law_farewells_are_told_once<C>(windows: Seq<OpenWindow<C>>, gone: Seq<Seq<char>>)
    requires
        one_window_per_app(windows),
        gone.no_duplicates(),
    ensures
        forall|j: int, k: int|
            0 <= j < k < farewells_in(partings(windows, gone)).len() ==> !same_news(
                #[trigger] farewells_in(partings(windows, gone))[j],
                #[trigger] farewells_in(partings(windows, gone))[k],
            ),
    decreases gone.len(),
{
    let told = farewells_in(partings(windows, gone));
    if gone.len() > 0 {
        let rest = gone.drop_last();
        let serial = gone.last();
        let mine = closed_for(windows, rest).filter(windows_of(serial));
        let before = farewells_in(partings(windows, rest));
        let at = before.len();
        lemma_last_parting(windows, gone);
        assert(rest.no_duplicates());
        law_farewells_are_told_once(windows, rest);
        law_apps_are_told_closed_before_their_phone_is_gone(windows, rest);
        lemma_closed_for_unique(windows, rest);
        lemma_chosen(closed_for(windows, rest), windows_of(serial));
        assert(!rest.contains(serial)) by {
            if rest.contains(serial) {
                let i = choose|i: int| 0 <= i < rest.len() && rest[i] == serial;
                assert(gone[i] == gone[gone.len() - 1]);
            }
        }
        assert forall|j: int, k: int| 0 <= j < k < told.len() implies !same_news(
            #[trigger] told[j],
            #[trigger] told[k],
        ) by {
            if k < at {
                assert(told[j] == before[j] && told[k] == before[k]);
            } else if j < at {
                assert(told[j] == before[j]);
                if k < at + mine.len() {
                    assert(told[k] == closing(mine[k - at]));
                    closed_for(windows, rest).lemma_filter_pred(windows_of(serial), k - at);
                }
            } else if k < at + mine.len() {
                assert(told[j] == closing(mine[j - at]));
                assert(told[k] == closing(mine[k - at]));
                assert(!shows(
                    mine[j - at],
                    mine[k - at].0.serial,
                    mine[k - at].0.package,
                ));
            } else {
                assert(told[j] == closing(mine[j - at]));
            }
        }
    }
}

/// What is told of the last of the phones that left follows what is told of the
/// others.
proof fn lemma_last_parting<C>(windows: Seq<OpenWindow<C>>, gone: Seq<Seq<char>>)
    requires
        gone.len() > 0,
    ensures
        farewells_in(partings(windows, gone)) == farewells_in(partings(windows, gone.drop_last()))
            + closed_for(windows, gone.drop_last()).filter(windows_of(gone.last())).map_values(
            |w: OpenWindow<C>| closing(w),
        ).push(FarewellView::Removed { serial: gone.last() }),
{
    let rest = gone.drop_last();
    let serial = gone.last();
    let open = closed_for(windows, rest);
    let mine = open.filter(windows_of(serial));
    let apps = mine.map_values(|w: OpenWindow<C>| (w.0.package, w.1));
    assert forall|i: int| 0 <= i < rest.len() implies #[trigger] partings(windows, rest)[i]
        == partings(windows, gone)[i] by {
        assert(rest.take(i) == gone.take(i));
    }
    assert(partings(windows, gone).drop_last() == partings(windows, rest));
    assert(gone.take(gone.len() - 1) == rest);
    assert(partings(windows, gone).last() == (serial, apps));
    assert forall|j: int| 0 <= j < mine.len() implies #[trigger] closings(serial, apps)[j]
        == closing(mine[j]) by {
        open.lemma_filter_pred(windows_of(serial), j);
    }
    assert(closings(serial, apps) == mine.map_values(|w: OpenWindow<C>| closing(w)));
}

proof fn lemma_closed_for_unique<C>(windows: Seq<OpenWindow<C>>, gone: Seq<Seq<char>>)
    requires
        one_window_per_app(windows),
    ensures
        one_window_per_app(closed_for(windows, gone)),
    decreases gone.len(),
{
    if gone.len() > 0 {
        lemma_closed_for_unique(windows, gone.drop_last());
        lemma_chosen(closed_for(windows, gone.drop_last()), windows_not_of(gone.last()));
    }
}

/// What one more listing adds to a sweep.
///
/// The phone is believed in as it was listed, in whatever state: trusted where it is
/// known, and under the model that it told, else under the alias that the person gave
/// it, else under the model that is recorded. It arrives under that same name where it
/// was not believed in. Only where it is ready is what it told recorded, and the list
/// stored where that changed it; a state that is not the one believed in is told.
pub proof fn law_one_more_listing(
    believed: Map<Seq<char>, DeviceView>,
    registry: Map<Seq<char>, KnownView>,
    seen: Seq<DeviceView>,
    listed: DeviceView,
    now: Seq<char>,
)
    ensures
        ({
            let before = swept(believed, registry, seen, now);
            let after = swept(believed, registry, seen.push(listed), now);
            let known = before.registry.contains_key(listed.serial);
            let entry = before.registry[listed.serial];
            let name = if listed.model.len() > 0 {
                listed.model
            } else if known && entry.alias.len() > 0 {
                entry.alias
            } else if known {
                entry.model
            } else {
                Seq::empty()
            };
            let device = DeviceView {
                serial: listed.serial,
                model: name,
                transport: listed.transport,
                state: listed.state,
                trusted: known,
                address: listed.address,
            };
            let recorded = KnownView {
                model: if listed.model.len() > 0 {
                    listed.model
                } else if known {
                    entry.model
                } else {
                    Seq::empty()
                },
                alias: if known {
                    entry.alias
                } else {
                    Seq::empty()
                },
                first_seen: if known {
                    entry.first_seen
                } else {
                    now
                },
                last_address: if listed.address.len() > 0 {
                    listed.address
                } else if known {
                    entry.last_address
                } else {
                    Seq::empty()
                },
                favourites: if known {
                    entry.favourites
                } else {
                    Seq::empty()
                },
            };
            let stored = if after.registry != before.registry {
                seq![EffectView::Save(after.registry)]
            } else {
                Seq::empty()
            };
            let told = if believed.contains_key(listed.serial) && believed[listed.serial].state
                != listed.state {
                seq![EffectView::Changed(device)]
            } else {
                Seq::empty()
            };
            &&& after.devices == before.devices.insert(listed.serial, device)
            &&& after.arrived == if believed.contains_key(listed.serial) {
                before.arrived
            } else {
                before.arrived.push((listed.serial, name))
            }
            &&& after.registry == if listed.state == DeviceState::Ready {
                before.registry.insert(listed.serial, recorded)
            } else {
                before.registry
            }
            &&& after.effects == before.effects + stored + told
        }),
{
    let before = swept(believed, registry, seen, now);
    let after = swept(believed, registry, seen.push(listed), now);
    assert(seen.push(listed).drop_last() == seen);
    assert(listed.model.len() == 0 ==> listed.model == Seq::<char>::empty());
    assert(listed.address.len() == 0 ==> listed.address == Seq::<char>::empty());
    let none = Seq::<EffectView>::empty();
    assert(before.effects + none + none == before.effects);
    assert(after.effects == with_device(before, believed, listed, now).effects);
}

/// Before anything is listed, nothing is believed, told or learnt.
pub proof fn law_an_empty_list_says_nothing(
    believed: Map<Seq<char>, DeviceView>,
    registry: Map<Seq<char>, KnownView>,
    now: Seq<char>,
)
    ensures
        ({
            let sweep = swept(believed, registry, Seq::empty(), now);
            &&& sweep.devices == Map::<Seq<char>, DeviceView>::empty()
            &&& sweep.registry == registry
            &&& sweep.effects.len() == 0
            &&& sweep.arrived.len() == 0
        }),
{
}

/// What a sweep does not list as ready it leaves as it is recorded.
proof fn lemma_unlisted_stays(
    believed: Map<Seq<char>, DeviceView>,
    registry: Map<Seq<char>, KnownView>,
    seen: Seq<DeviceView>,
    now: Seq<char>,
    serial: Seq<char>,
)
    requires
        forall|j: int|
            0 <= j < seen.len() && (#[trigger] seen[j]).serial == serial ==> seen[j].state
                != DeviceState::Ready,
    ensures
        ({
            let after = swept(believed, registry, seen, now).registry;
            &&& after.contains_key(serial) == registry.contains_key(serial)
            &&& registry.contains_key(serial) ==> after[serial] == registry[serial]
        }),
    decreases seen.len(),
{
    if seen.len() > 0 {
        let rest = seen.drop_last();
        assert forall|j: int|
            0 <= j < rest.len() && (#[trigger] rest[j]).serial == serial implies rest[j].state
            != DeviceState::Ready by {
            assert(rest[j] == seen[j]);
        }
        lemma_unlisted_stays(believed, registry, rest, now, serial);
        assert(seen[seen.len() - 1] == seen.last());
    }
}

/// A phone that is listed once, in any state, is believed in under the model it was
/// listed with, else under its alias, else under its recorded model, else under none,
/// and arrives under that name where it was not believed in. It is recorded only where
/// it is ready, with what it told and with what was known where it told nothing.
pub proof fn law_phones_are_shown_under_the_name_that_is_known(
    believed: Map<Seq<char>, DeviceView>,
    registry: Map<Seq<char>, KnownView>,
    seen: Seq<DeviceView>,
    now: Seq<char>,
    i: int,
)
    requires
        0 <= i < seen.len(),
        forall|j: int|
            0 <= j < seen.len() && j != i ==> (#[trigger] seen[j]).serial != seen[i].serial,
    ensures
        ({
            let sweep = swept(believed, registry, seen, now);
            let listed = seen[i];
            let k = listed.serial;
            let known = registry.contains_key(k);
            let name = if listed.model.len() > 0 {
                listed.model
            } else if known && registry[k].alias.len() > 0 {
                registry[k].alias
            } else if known {
                registry[k].model
            } else {
                Seq::empty()
            };
            &&& sweep.devices.contains_key(k)
            &&& sweep.devices[k].model == name
            &&& sweep.devices[k].trusted == known
            &&& sweep.devices[k].state == listed.state
            &&& sweep.devices[k].transport == listed.transport
            &&& sweep.devices[k].address == listed.address
            &&& sweep.devices[k].serial == k
            &&& !believed.contains_key(k) ==> sweep.arrived.contains((k, name))
            &&& forall|j: int|
                0 <= j < sweep.arrived.len() && (#[trigger] sweep.arrived[j]).0 == k
                    ==> sweep.arrived[j].1 == name
            &&& listed.state == DeviceState::Ready ==> {
                &&& sweep.registry.contains_key(k)
                &&& sweep.registry[k].model == (if listed.model.len() > 0 {
                    listed.model
                } else if known {
                    registry[k].model
                } else {
                    Seq::empty()
                })
                &&& sweep.registry[k].last_address == (if listed.address.len() > 0 {
                    listed.address
                } else if known {
                    registry[k].last_address
                } else {
                    Seq::empty()
                })
                &&& sweep.registry[k].first_seen == (if known {
                    registry[k].first_seen
                } else {
                    now
                })
                &&& sweep.registry[k].alias == (if known {
                    registry[k].alias
                } else {
                    Seq::empty()
                })
            }
            &&& listed.state != DeviceState::Ready ==> {
                &&& sweep.registry.contains_key(k) == known
                &&& known ==> sweep.registry[k] == registry[k]
            }
        }),
    decreases seen.len(),
{
    let rest = seen.drop_last();
    let last = seen.last();
    let k = seen[i].serial;
    let before = swept(believed, registry, rest, now);
    let after = swept(believed, registry, seen, now);
    assert(rest.push(last) == seen);
    law_one_more_listing(believed, registry, rest, last, now);
    if i < rest.len() {
        assert(rest[i] == seen[i]);
        assert forall|j: int| 0 <= j < rest.len() && j != i implies (#[trigger] rest[j]).serial
            != rest[i].serial by {
            assert(rest[j] == seen[j]);
        }
        law_phones_are_shown_under_the_name_that_is_known(believed, registry, rest, now, i);
        assert(seen[seen.len() - 1].serial != k);
        if !believed.contains_key(k) {
            let name = before.devices[k].model;
            let j = choose|j: int| 0 <= j < before.arrived.len() && before.arrived[j] == (k, name);
            assert(after.arrived[j] == (k, name));
        }
        assert forall|j: int|
            0 <= j < after.arrived.len() && (
            #[trigger] after.arrived[j]).0 == k implies after.arrived[j].1
            == after.devices[k].model by {
            assert(after.arrived[j] == before.arrived[j]);
        }
    } else {
        assert forall|j: int|
            0 <= j < rest.len() && (#[trigger] rest[j]).serial == k implies rest[j].state
            != DeviceState::Ready by {
            assert(rest[j] == seen[j]);
        }
        lemma_unlisted_stays(believed, registry, rest, now, k);
        law_new_phones_arrive(believed, registry, rest, now);
        law_what_adb_lists_is_believed(believed, registry, rest, now);
        assert(!before.devices.contains_key(k)) by {
            if before.devices.contains_key(k) {
                let j = choose|j: int| 0 <= j < rest.len() && (#[trigger] rest[j]).serial == k;
                assert(rest[j] == seen[j]);
            }
        }
        assert forall|j: int| 0 <= j < before.arrived.len() implies (
        #[trigger] before.arrived[j]).0 != k by {
            if before.arrived[j].0 == k {
                assert(before.devices.contains_key(before.arrived[j].0));
            }
        }
        if !believed.contains_key(k) {
            assert(after.arrived[before.arrived.len() as int].0 == k);
            assert(after.arrived[before.arrived.len() as int] == (k, after.devices[k].model));
        }
    }
}

/// What a sweep does not list, or does not list as ready, stays as it was recorded.
pub proof fn law_what_is_not_ready_stays_as_recorded(
    believed: Map<Seq<char>, DeviceView>,
    registry: Map<Seq<char>, KnownView>,
    seen: Seq<DeviceView>,
    now: Seq<char>,
    serial: Seq<char>,
)
    requires
        forall|j: int|
            0 <= j < seen.len() && (#[trigger] seen[j]).serial == serial ==> seen[j].state
                != DeviceState::Ready,
    ensures
        ({
            let after = swept(believed, registry, seen, now).registry;
            &&& after.contains_key(serial) == registry.contains_key(serial)
            &&& registry.contains_key(serial) ==> after[serial] == registry[serial]
        }),
{
    lemma_unlisted_stays(believed, registry, seen, now, serial);
}

/// A window has the label of the first listed app with its package, whatever else that
/// app is, and the package itself where no app with it is listed.
pub proof fn law_a_window_has_the_label_of_its_app(
    lists: Map<Seq<char>, Seq<AppView>>,
    serial: Seq<char>,
    package: Seq<char>,
)
    ensures
        ({
            let name = label_of(listed_for(lists, serial), package);
            &&& !lists.contains_key(serial) ==> name == package
            &&& lists.contains_key(serial) && (forall|i: int|
                0 <= i < lists[serial].len() ==> (#[trigger] lists[serial][i]).package != package)
                ==> name == package
            &&& forall|i: int|
                {
                    &&& lists.contains_key(serial)
                    &&& 0 <= i < lists[serial].len()
                    &&& (#[trigger] lists[serial][i]).package == package
                    &&& forall|j: int|
                        0 <= j < i ==> (#[trigger] lists[serial][j]).package != package
                } ==> name == lists[serial][i].label
        }),
{
    if lists.contains_key(serial) {
        let apps = lists[serial];
        if forall|i: int| 0 <= i < apps.len() ==> (#[trigger] apps[i]).package != package {
            lemma_no_label(apps, package);
        }
        assert forall|i: int|
            {
                &&& 0 <= i < apps.len()
                &&& (#[trigger] apps[i]).package == package
                &&& forall|j: int| 0 <= j < i ==> (#[trigger] apps[j]).package != package
            } implies label_of(apps, package) == apps[i].label by {
            lemma_first_label(apps, package, i);
        }
    }
}

proof fn lemma_no_label(apps: Seq<AppView>, package: Seq<char>)
    requires
        forall|i: int| 0 <= i < apps.len() ==> (#[trigger] apps[i]).package != package,
    ensures
        label_of(apps, package) == package,
    decreases apps.len(),
{
    if apps.len() > 0 {
        let rest = apps.drop_first();
        assert(apps[0].package != package);
        assert forall|i: int| 0 <= i < rest.len() implies (#[trigger] rest[i]).package
            != package by {
            assert(rest[i] == apps[i + 1]);
        }
        lemma_no_label(rest, package);
    }
}

proof fn lemma_first_label(apps: Seq<AppView>, package: Seq<char>, i: int)
    requires
        0 <= i < apps.len(),
        apps[i].package == package,
        forall|j: int| 0 <= j < i ==> (#[trigger] apps[j]).package != package,
    ensures
        label_of(apps, package) == apps[i].label,
    decreases i,
{
    if i > 0 {
        let rest = apps.drop_first();
        assert(apps[0].package != package);
        assert(rest[i - 1] == apps[i]);
        assert forall|j: int| 0 <= j < i - 1 implies (#[trigger] rest[j]).package != package by {
            assert(rest[j] == apps[j + 1]);
        }
        lemma_first_label(rest, package, i - 1);
    }
}

/// A request is served where the phone is in sight and ready; otherwise it is answered
/// with the serial that nobody has, or with the state that the phone is in. A phone
/// that waits for the prompt is read from no more than any other that is not ready, but
/// with words that say where to look.
pub proof fn law_requests_are_answered_by_the_state_of_the_phone(
    devices: Map<Seq<char>, DeviceView>,
    serial: Seq<char>,
)
    ensures
        !devices.contains_key(serial) ==> {
            let nobody = Err::<DeviceView, Seq<char>>(
                "no hay ningún dispositivo con el serial "@ + serial,
            );
            &&& asked(devices, serial) == nobody
            &&& asked_ready(devices, serial) == nobody
            &&& asked_readable(devices, serial) == nobody
        },
        devices.contains_key(serial) ==> {
            let device = devices[serial];
            let word = match device.state {
                DeviceState::Ready => "ready"@,
                DeviceState::Unauthorized => "unauthorized"@,
                DeviceState::Connecting => "connecting"@,
                DeviceState::Offline => "offline"@,
            };
            &&& asked(devices, serial) == Ok::<DeviceView, Seq<char>>(device)
            &&& device.state == DeviceState::Ready ==> asked_ready(devices, serial) == Ok::<
                DeviceView,
                Seq<char>,
            >(device) && asked_readable(devices, serial) == Ok::<DeviceView, Seq<char>>(device)
            &&& device.state != DeviceState::Ready ==> asked_ready(devices, serial) == Err::<
                DeviceView,
                Seq<char>,
            >("el dispositivo está "@ + word)
            &&& device.state == DeviceState::Connecting || device.state == DeviceState::Offline
                ==> asked_readable(devices, serial) == Err::<DeviceView, Seq<char>>(
                "el dispositivo está "@ + word,
            )
            &&& device.state == DeviceState::Unauthorized ==> asked_readable(devices, serial)
                == Err::<DeviceView, Seq<char>>(
                "el teléfono todavía no aceptó la depuración USB: mirá la pantalla del dispositivo"@,
            )
        },
{
}

/// A listed app is kept as the phone reported it, without an icon; a known device is
/// told by its serial, the name it is shown under, when it was first seen and where it
/// last answered.
pub proof fn law_rows_hold_what_was_reported(
    entry: AppEntry,
    serial: Seq<char>,
    known: KnownView,
)
    ensures
        listed_app(entry).package == entry.0,
        listed_app(entry).label == entry.1,
        listed_app(entry).system == entry.2,
        listed_app(entry).icon.len() == 0,
        known_row((serial, known)).0 == serial,
        known_row((serial, known)).1 == (if known.alias.len() > 0 {
            known.alias
        } else {
            known.model
        }),
        known_row((serial, known)).2 == known.first_seen,
        known_row((serial, known)).3 == known.last_address,
{
}

/// Of one more phone that left, first its windows are told closed, in the order in
/// which they were opened, and then that it is gone, behind all that is told of the
/// phones before it; a phone that was among those has no window left to close.
pub proof fn law_each_departure_is_told_in_turn<C>(
    windows: Seq<OpenWindow<C>>,
    gone: Seq<Seq<char>>,
    serial: Seq<char>,
)
    ensures
        farewells_in(partings(windows, Seq::empty())).len() == 0,
        farewells_in(partings(windows, gone.push(serial))) == farewells_in(partings(windows, gone))
            + (if gone.contains(serial) {
            Seq::empty()
        } else {
            windows.filter(|w: OpenWindow<C>| w.0.serial == serial).map_values(
                |w: OpenWindow<C>|
                    FarewellView::Close { serial: w.0.serial, package: w.0.package, child: w.1 },
            )
        }).push(FarewellView::Removed { serial }),
{
    let more = gone.push(serial);
    assert(more.drop_last() == gone);
    lemma_last_parting(windows, more);
    lemma_windows_untouched(windows, gone, serial);
    let mine = windows.filter(windows_of(serial));
    assert(windows_of::<C>(serial) =~= (|w: OpenWindow<C>| w.0.serial == serial));
    assert(mine.map_values(|w: OpenWindow<C>| closing(w)) == mine.map_values(
        |w: OpenWindow<C>|
            FarewellView::Close { serial: w.0.serial, package: w.0.package, child: w.1 },
    ));
    let left = closed_for(windows, gone).filter(windows_of(serial));
    if gone.contains(serial) {
        assert(left.map_values(|w: OpenWindow<C>| closing(w)) == Seq::<FarewellView<C>>::empty());
    }
}

/// Of each phone that left, the windows it had are handed out, in the order in which
/// they were opened, unless the phone was named before.
pub proof fn law_each_departure_hands_out_its_windows<C>(
    windows: Seq<OpenWindow<C>>,
    gone: Seq<Seq<char>>,
    i: int,
)
    requires
        0 <= i < gone.len(),
    ensures
        partings(windows, gone).len() == gone.len(),
        partings(windows, gone)[i].0 == gone[i],
        partings(windows, gone)[i].1 == (if exists|j: int| 0 <= j < i && #[trigger] gone[j]
            == gone[i] {
            Seq::empty()
        } else {
            windows.filter(|w: OpenWindow<C>| w.0.serial == gone[i]).map_values(
                |w: OpenWindow<C>| (w.0.package, w.1),
            )
        }),
{
    let before = gone.take(i);
    let serial = gone[i];
    lemma_windows_untouched(windows, before, serial);
    assert(windows_of::<C>(serial) =~= (|w: OpenWindow<C>| w.0.serial == serial));
    let left = closed_for(windows, before).filter(windows_of(serial));
    if exists|j: int| 0 <= j < i && #[trigger] gone[j] == serial {
        let j = choose|j: int| 0 <= j < i && #[trigger] gone[j] == serial;
        assert(before[j] == serial);
        assert(left.map_values(|w: OpenWindow<C>| (w.0.package, w.1)) == Seq::<
            (Seq<char>, C),
        >::empty());
    } else {
        assert(!before.contains(serial)) by {
            if before.contains(serial) {
                let j = choose|j: int| 0 <= j < before.len() && before[j] == serial;
                assert(gone[j] == serial);
            }
        }
    }
}

/// The windows that stay are those of the phones that did not leave, all of them, in
/// the order in which they were opened.
pub proof fn law_the_windows_of_the_others_stay<C>(
    windows: Seq<OpenWindow<C>>,
    gone: Seq<Seq<char>>,
)
    ensures
        closed_for(windows, gone) == windows.filter(
            |w: OpenWindow<C>| !gone.contains(w.0.serial),
        ),
    decreases gone.len(),
{
    let stays = |w: OpenWindow<C>| !gone.contains(w.0.serial);
    if gone.len() == 0 {
        lemma_all_stay(windows, stays);
    } else {
        let rest = gone.drop_last();
        let stayed = |w: OpenWindow<C>| !rest.contains(w.0.serial);
        law_the_windows_of_the_others_stay(windows, rest);
        assert forall|w: OpenWindow<C>| #[trigger] stays(w) == (stayed(w) && windows_not_of(
            gone.last(),
        )(w)) by {
            lemma_contains_last(gone, w.0.serial);
        }
        lemma_filtered_twice(windows, stayed, windows_not_of(gone.last()), stays);
    }
}

proof fn lemma_all_stay<C>(windows: Seq<OpenWindow<C>>, p: spec_fn(OpenWindow<C>) -> bool)
    requires
        forall|w: OpenWindow<C>| #[trigger] p(w),
    ensures
        windows.filter(p) == windows,
    decreases windows.len(),
{
    reveal(Seq::filter);
    if windows.len() > 0 {
        lemma_all_stay(windows.drop_last(), p);
        assert(p(windows.last()));
        assert(windows.drop_last().push(windows.last()) == windows);
    }
}

proof fn lemma_filtered_twice<C>(
    windows: Seq<OpenWindow<C>>,
    p: spec_fn(OpenWindow<C>) -> bool,
    q: spec_fn(OpenWindow<C>) -> bool,
    both: spec_fn(OpenWindow<C>) -> bool,
)
    requires
        forall|w: OpenWindow<C>| #[trigger] both(w) == (p(w) && q(w)),
    ensures
        windows.filter(p).filter(q) == windows.filter(both),
    decreases windows.len(),
{
    reveal(Seq::filter);
    if windows.len() > 0 {
        let rest = windows.drop_last();
        let w = windows.last();
        lemma_filtered_twice(rest, p, q, both);
        assert(both(w) == (p(w) && q(w)));
        let kept = rest.filter(p);
        if p(w) {
            assert(kept.push(w).drop_last() == kept);
        }
    }
}

/// Closing the windows of some phones leaves those of another phone alone, and none of
/// their own.
proof fn lemma_windows_untouched<C>(
    windows: Seq<OpenWindow<C>>,
    gone: Seq<Seq<char>>,
    serial: Seq<char>,
)
    ensures
        !gone.contains(serial) ==> closed_for(windows, gone).filter(windows_of(serial))
            == windows.filter(windows_of(serial)),
        gone.contains(serial) ==> closed_for(windows, gone).filter(windows_of(serial)).len() == 0,
{
    let mine = windows_of::<C>(serial);
    let stays = |w: OpenWindow<C>| !gone.contains(w.0.serial);
    let both = |w: OpenWindow<C>| !gone.contains(w.0.serial) && w.0.serial == serial;
    law_the_windows_of_the_others_stay(windows, gone);
    lemma_filtered_twice(windows, stays, mine, both);
    if gone.contains(serial) {
        let left = windows.filter(both);
        if left.len() > 0 {
            windows.lemma_filter_pred(both, 0);
        }
    } else {
        assert(both =~= mine);
    }
}

/// What the service holds and tells is what the entries of its tables and lists hold,
/// one for one.
pub proof fn law_what_is_held_is_told<C>(
    state: State<C>,
    serial: Seq<char>,
    effects: Seq<Effect>,
    pairs: Seq<(String, String)>,
    apps: Seq<App>,
    row: KnownRow,
)
    ensures
        state.device_map().contains_key(serial) <==> state.devices@.contains_key(serial),
        state.devices@.contains_key(serial) ==> state.device_map()[serial]
            == state.devices@[serial]@,
        state.app_map().contains_key(serial) <==> state.apps@.contains_key(serial),
        state.apps@.contains_key(serial) ==> state.app_map()[serial] == app_views(
            state.apps@[serial]@,
        ),
        effect_views(effects).len() == effects.len(),
        forall|i: int|
            0 <= i < effects.len() ==> {
                &&& effects[i] matches Effect::Save(list) ==> #[trigger] effect_views(effects)[i]
                    == EffectView::Save(list@)
                &&& effects[i] matches Effect::Changed(device) ==> effect_views(effects)[i]
                    == EffectView::Changed(device@)
            },
        pair_views(pairs).len() == pairs.len(),
        forall|i: int|
            0 <= i < pairs.len() ==> #[trigger] pair_views(pairs)[i] == (pairs[i].0@, pairs[i].1@),
        app_views(apps).len() == apps.len(),
        forall|i: int| 0 <= i < apps.len() ==> #[trigger] app_views(apps)[i] == apps[i]@,
        known_row_view(row).0 == row.0@,
        known_row_view(row).1 == row.1@,
        known_row_view(row).2 == row.2@,
        known_row_view(row).3 == row.3@,
{
}

/// What is told of the phones that left is what the entries hold, one for one.
pub proof fn law_what_is_told_of_departures<C>(
    told: Seq<Farewell<C>>,
    parted: Seq<(String, Vec<(String, C)>)>,
    i: int,
)
    ensures
        farewell_views(told).len() == told.len(),
        0 <= i < told.len() ==> {
            &&& told[i] matches Farewell::Close { serial, package, child } ==> farewell_views(
                told,
            )[i] == (FarewellView::Close { serial: serial@, package: package@, child })
            &&& told[i] matches Farewell::Removed { serial } ==> farewell_views(told)[i]
                == (FarewellView::<C>::Removed { serial: serial@ })
        },
        parting_views(parted).len() == parted.len(),
        0 <= i < parted.len() ==> {
            let apps = parted[i].1@;
            &&& parting_views(parted)[i].0 == parted[i].0@
            &&& parting_views(parted)[i].1.len() == apps.len()
            &&& forall|j: int|
                0 <= j < apps.len() ==> #[trigger] parting_views(parted)[i].1[j] == (
                    apps[j].0@,
                    apps[j].1,
                )
        },
{
}

} // verus!
