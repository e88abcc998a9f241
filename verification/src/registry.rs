//! Which phones this person has accepted before.
//!
//! Deliberately thin. adb already has a trust mechanism and it is the one that
//! actually decides whether a connection works. So this records only what adb
//! does *not*: a name the person recognises, when the device was first seen,
//! and where it last answered.

use vstd::prelude::*;
use vstd::utf8::encode_utf8;

use crate::protocol::texts;
use crate::table::{lists, Table};
use crate::text::same;

verus! {

broadcast use vstd::string::group_string_axioms;

#[derive(Debug)]
pub struct KnownDevice {
    pub model: String,
    /// A name the user chose; falls back to the model when empty.
    pub alias: String,
    /// ISO-8601, first time it was seen.
    pub first_seen: String,
    /// Last address it answered on. This is what makes reconnecting possible on
    /// networks where discovery is impossible but a direct connection is not.
    pub last_address: String,
    /// Packages the person pinned to the menu.
    pub favourites: Vec<String>,
}

pub struct KnownView {
    pub model: Seq<char>,
    pub alias: Seq<char>,
    pub first_seen: Seq<char>,
    pub last_address: Seq<char>,
    pub favourites: Seq<Seq<char>>,
}

impl View for KnownDevice {
    type V = KnownView;

    open spec fn view(&self) -> KnownView {
        KnownView {
            model: self.model@,
            alias: self.alias@,
            first_seen: self.first_seen@,
            last_address: self.last_address@,
            favourites: texts(self.favourites@),
        }
    }
}

impl KnownView {
    /// A device of which nothing is known yet.
    pub open spec fn blank() -> KnownView {
        KnownView {
            model: Seq::empty(),
            alias: Seq::empty(),
            first_seen: Seq::empty(),
            last_address: Seq::empty(),
            favourites: Seq::empty(),
        }
    }

    /// The name to show: the alias, or the model where there is none.
    pub open spec fn shown(self) -> Seq<char> {
        if self.alias.len() == 0 {
            self.model
        } else {
            self.alias
        }
    }

    /// What is known after the device was seen once more. What it did not tell
    /// stays as it was.
    pub open spec fn refreshed(self, model: Seq<char>, address: Seq<char>) -> KnownView {
        KnownView {
            model: if model.len() == 0 {
                self.model
            } else {
                model
            },
            last_address: if address.len() == 0 {
                self.last_address
            } else {
                address
            },
            ..self
        }
    }
}

impl Default for KnownDevice {
    fn default() -> (r: KnownDevice)
        ensures
            r@ == KnownView::blank(),
    {
        let r = KnownDevice {
            model: String::new(),
            alias: String::new(),
            first_seen: String::new(),
            last_address: String::new(),
            favourites: Vec::new(),
        };
        assert(r@.favourites == Seq::<Seq<char>>::empty());
        r
    }
}

impl Clone for KnownDevice {
    fn clone(&self) -> (r: KnownDevice)
        ensures
            r@ == self@,
    {
        let mut favourites: Vec<String> = Vec::new();
        for i in 0..self.favourites.len()
            invariant
                texts(favourites@) == texts(self.favourites@).take(i as int),
        {
            let ghost before = texts(favourites@);
            let name = self.favourites[i].clone();
            favourites.push(name);
            assert(texts(favourites@) == before.push(name@));
        }
        let r = KnownDevice {
            model: self.model.clone(),
            alias: self.alias.clone(),
            first_seen: self.first_seen.clone(),
            last_address: self.last_address.clone(),
            favourites,
        };
        assert(r@.favourites == self@.favourites);
        r
    }
}

impl KnownDevice {
    /// The name to show a person.
    pub fn shown(&self) -> (r: String)
        ensures
            r@ == self@.shown(),
    {
        if self.alias.as_str().is_empty() {
            self.model.clone()
        } else {
            self.alias.clone()
        }
    }
}

/// What the known devices are once one is recorded, or seen again.
pub open spec fn remembered(
    known: Map<Seq<char>, KnownView>,
    serial: Seq<char>,
    model: Seq<char>,
    address: Seq<char>,
    now: Seq<char>,
) -> Map<Seq<char>, KnownView> {
    let before = if known.contains_key(serial) {
        known[serial]
    } else {
        KnownView { first_seen: now, ..KnownView::blank() }
    };
    known.insert(serial, before.refreshed(model, address))
}

/// The devices that the rows of a stored list record; of two rows with one
/// serial, the later.
pub open spec fn recorded(rows: Seq<(Seq<char>, KnownView)>) -> Map<Seq<char>, KnownView>
    decreases rows.len(),
{
    if rows.len() == 0 {
        Map::empty()
    } else {
        recorded(rows.drop_last()).insert(rows.last().0, rows.last().1)
    }
}

/// What the rows of a list hold.
pub open spec fn row_views(rows: Seq<(String, KnownDevice)>) -> Seq<(Seq<char>, KnownView)> {
    rows.map_values(|r: (String, KnownDevice)| (r.0@, r.1@))
}

/// The devices that this person has accepted before, by serial.
pub struct Registry {
    devices: Table<KnownDevice>,
}

impl View for Registry {
    type V = Map<Seq<char>, KnownView>;

    closed spec fn view(&self) -> Map<Seq<char>, KnownView> {
        self.devices@.map_values(|d: KnownDevice| d@)
    }
}

/// What came of looking for the stored list.
pub enum Stored {
    /// There is no place to keep one.
    NoPlace,
    /// There is no list yet.
    Absent,
    /// The list cannot be opened.
    Unreadable,
    /// What is stored is not a list.
    Corrupt,
    Rows(Vec<(String, KnownDevice)>),
}

impl Default for Registry {
    fn default() -> (r: Registry)
        ensures
            r@ == Map::<Seq<char>, KnownView>::empty(),
    {
        let r = Registry { devices: Table::new() };
        assert(r@ =~= Map::<Seq<char>, KnownView>::empty());
        r
    }
}

impl Registry {
    /// The registry that a stored list records.
    pub fn from_rows(rows: Vec<(String, KnownDevice)>) -> (r: Registry)
        ensures
            r@ == recorded(row_views(rows@)),
    {
        let mut r = Registry::default();
        for i in 0..rows.len()
            invariant
                r@ == recorded(row_views(rows@).take(i as int)),
        {
            let ghost before = r.devices@;
            let ghost views = row_views(rows@);
            assert(views.take(i + 1).drop_last() == views.take(i as int));
            let serial = rows[i].0.clone();
            let device = rows[i].1.clone();
            r.devices.insert(serial, device);
            assert(r@ =~= before.map_values(|d: KnownDevice| d@).insert(serial@, device@));
        }
        assert(row_views(rows@).take(rows@.len() as int) == row_views(rows@));
        r
    }

    /// The registry to start with. A list that cannot be read must not stop the
    /// service: the worst case is that every phone looks new again, which is
    /// recoverable.
    pub fn load(stored: Stored) -> (r: Registry)
        ensures
            r@ == match stored {
                Stored::Rows(rows) => recorded(row_views(rows@)),
                _ => Map::empty(),
            },
    {
        match stored {
            Stored::Rows(rows) => Registry::from_rows(rows),
            _ => Registry::default(),
        }
    }

    pub fn is_known(&self, serial: &str) -> (r: bool)
        ensures
            r == self@.contains_key(serial@),
    {
        self.devices.contains_key(serial)
    }

    pub fn get(&self, serial: &str) -> (r: Option<&KnownDevice>)
        ensures
            match r {
                Some(device) => self@.contains_key(serial@) && device@ == self@[serial@],
                None => !self@.contains_key(serial@),
            },
    {
        self.devices.get(serial)
    }

    /// Every known device with its serial, in the order of the serials.
    pub fn all(&self) -> (r: Vec<(&String, &KnownDevice)>)
        ensures
            lists(r@.map_values(|p: (&String, &KnownDevice)| (p.0@, p.1@)), self@),
    {
        let r = self.devices.rows();
        proof {
            let raw = r@.map_values(|p: (&String, &KnownDevice)| (p.0@, *p.1));
            let seen = r@.map_values(|p: (&String, &KnownDevice)| (p.0@, p.1@));
            assert(seen.map_values(|r: (Seq<char>, KnownView)| r.0) == raw.map_values(
                |r: (Seq<char>, KnownDevice)| r.0,
            ));
            assert forall|i: int| 0 <= i < seen.len() implies self@.contains_key(
                #[trigger] seen[i].0,
            ) && self@[seen[i].0] == seen[i].1 by {
                assert(raw[i].0 == seen[i].0);
            }
            assert forall|k: Seq<char>| #[trigger] self@.contains_key(k) implies exists|i: int|
                0 <= i < seen.len() && seen[i].0 == k by {
                assert(self.devices@.contains_key(k));
                let i = choose|i: int| 0 <= i < raw.len() && raw[i].0 == k;
                assert(seen[i].0 == k);
            }
        }
        r
    }

    /// Records a device, or refreshes what is known about one.
    pub fn remember(&mut self, serial: &str, model: &str, address: &str, now: &str)
        ensures
            final(self)@ == remembered(old(self)@, serial@, model@, address@, now@),
    {
        let ghost before = self.devices@;
        let mut device = match self.devices.get(serial) {
            Some(device) => device.clone(),
            None => {
                let mut device = KnownDevice::default();
                device.first_seen = now.to_owned();
                device
            },
        };
        if !model.is_empty() {
            device.model = model.to_owned();
        }
        if !address.is_empty() {
            device.last_address = address.to_owned();
        }
        self.devices.insert(serial.to_owned(), device);
        assert(self@ =~= before.map_values(|d: KnownDevice| d@).insert(serial@, device@));
    }

    /// Whether recording what a device tells would change anything.
    pub fn learns(&self, serial: &str, model: &str, address: &str, now: &str) -> (r: bool)
        ensures
            r == (remembered(self@, serial@, model@, address@, now@) != self@),
    {
        let ghost after = remembered(self@, serial@, model@, address@, now@);
        match self.devices.get(serial) {
            Some(device) => {
                let ghost before = self@[serial@];
                let r = (!model.is_empty() && !same(model, device.model.as_str())) || (
                !address.is_empty() && !same(address, device.last_address.as_str()));
                proof {
                    if r {
                        assert(after[serial@] != before);
                    } else {
                        assert(after[serial@] == before);
                        assert(after =~= self@);
                    }
                }
                r
            },
            None => {
                assert(after.contains_key(serial@));
                true
            },
        }
    }

    /// Drops a device. Says whether there was one.
    ///
    /// This does **not** revoke adb's authorisation, which lives on the phone.
    pub fn forget(&mut self, serial: &str) -> (r: bool)
        ensures
            r == old(self)@.contains_key(serial@),
            final(self)@ == old(self)@.remove(serial@),
    {
        let ghost before = self.devices@;
        let gone = self.devices.remove(serial).is_some();
        assert(self@ =~= before.map_values(|d: KnownDevice| d@).remove(serial@));
        gone
    }

    /// Gives a known device a name. Says whether there is such a device.
    pub fn set_alias(&mut self, serial: &str, alias: &str) -> (r: bool)
        ensures
            r == old(self)@.contains_key(serial@),
            final(self)@ == if r {
                old(self)@.insert(serial@, KnownView { alias: alias@, ..old(self)@[serial@] })
            } else {
                old(self)@
            },
    {
        let ghost before = self.devices@;
        match self.devices.remove(serial) {
            Some(device) => {
                let mut device = device;
                device.alias = alias.to_owned();
                self.devices.insert(serial.to_owned(), device);
                assert(self@ =~= before.map_values(|d: KnownDevice| d@).insert(serial@, device@));
                true
            },
            None => {
                assert(self.devices@ =~= before);
                false
            },
        }
    }
}

impl Clone for Registry {
    fn clone(&self) -> (r: Registry)
        ensures
            r@ == self@,
    {
        let rows = self.all();
        let ghost seen = rows@.map_values(|p: (&String, &KnownDevice)| (p.0@, p.1@));
        let mut r = Registry::default();
        for i in 0..rows.len()
            invariant
                seen == rows@.map_values(|p: (&String, &KnownDevice)| (p.0@, p.1@)),
                lists(seen, self@),
                forall|k: Seq<char>| #[trigger]
                    r@.contains_key(k) ==> self@.contains_key(k) && r@[k] == self@[k],
                forall|j: int| 0 <= j < i ==> r@.contains_key(#[trigger] seen[j].0),
        {
            let ghost before = r.devices@;
            let ghost shown = r@;
            assert(seen[i as int] == (rows@[i as int].0@, rows@[i as int].1@));
            let serial = rows[i].0.clone();
            let device = rows[i].1.clone();
            r.devices.insert(serial, device);
            assert(r@ =~= shown.insert(serial@, device@));
            assert(self@.contains_key(seen[i as int].0));
            assert forall|k: Seq<char>| #[trigger] r@.contains_key(k) implies self@.contains_key(k)
                && r@[k] == self@[k] by {
                if k != serial@ {
                    assert(shown.contains_key(k));
                }
            }
            assert forall|j: int| 0 <= j < i + 1 implies r@.contains_key(#[trigger] seen[j].0) by {
                if j < i {
                    assert(shown.contains_key(seen[j].0));
                }
            }
        }
        assert(r@ =~= self@);
        r
    }
}

/// A path with one more name at its end.
pub open spec fn joined(base: Seq<u8>, name: Seq<u8>) -> Seq<u8> {
    if base.len() == 0 || base.last() == 47 {
        base + name
    } else {
        base.push(47) + name
    }
}

/// Where the list is kept: `vasak/connect.json` in the directory for
/// configuration, which is `.config` at home unless the session names another.
pub open spec fn list_path(config: Option<Seq<u8>>, home: Option<Seq<u8>>) -> Option<Seq<u8>> {
    let base = match (config, home) {
        (Some(dir), _) => Some(dir),
        (None, Some(dir)) => Some(joined(dir, encode_utf8(".config"@))),
        (None, None) => None,
    };
    match base {
        Some(dir) => Some(
            joined(joined(dir, encode_utf8("vasak"@)), encode_utf8("connect.json"@)),
        ),
        None => None,
    }
}

/// Where the list is written before it takes its place.
pub open spec fn temporary(path: Seq<u8>) -> Seq<u8> {
    path + encode_utf8(".tmp"@)
}

/// What an optional row of bytes holds.
pub open spec fn bytes_view(v: Option<Vec<u8>>) -> Option<Seq<u8>> {
    match v {
        Some(bytes) => Some(bytes@),
        None => None,
    }
}

fn join(base: Vec<u8>, name: &str) -> (r: Vec<u8>)
    ensures
        r@ == joined(base@, encode_utf8(name@)),
{
    let mut r = base;
    if r.len() > 0 && r[r.len() - 1] != 47 {
        r.push(47);
    }
    let ghost head = r@;
    let bytes = name.as_bytes();
    for i in 0..bytes.len()
        invariant
            r@ == head + bytes@.take(i as int),
    {
        r.push(bytes[i]);
        assert(r@ == head + bytes@.take(i + 1));
    }
    assert(bytes@.take(bytes@.len() as int) == bytes@);
    r
}

impl Registry {
    /// Where the list is kept, given what the session says of `XDG_CONFIG_HOME`
    /// and of `HOME`; `None` where it says nothing of either.
    pub fn path(config: Option<Vec<u8>>, home: Option<Vec<u8>>) -> (r: Option<Vec<u8>>)
        ensures
            bytes_view(r) == list_path(bytes_view(config), bytes_view(home)),
    {
        let base = match (config, home) {
            (Some(dir), _) => dir,
            (None, Some(dir)) => join(dir, ".config"),
            (None, None) => {
                return None;
            },
        };
        Some(join(join(base, "vasak"), "connect.json"))
    }

    /// Where the list is written before it takes its place: beside it, under a
    /// longer name.
    pub fn temporary_path(path: &Vec<u8>) -> (r: Vec<u8>)
        ensures
            r@ == temporary(path@),
    {
        let suffix = ".tmp".as_bytes();
        let mut r: Vec<u8> = Vec::new();
        for i in 0..path.len()
            invariant
                r@ == path@.take(i as int),
        {
            r.push(path[i]);
        }
        assert(path@.take(path@.len() as int) == path@);
        for i in 0..suffix.len()
            invariant
                r@ == path@ + suffix@.take(i as int),
        {
            r.push(suffix[i]);
            assert(r@ == path@ + suffix@.take(i + 1));
        }
        assert(suffix@.take(suffix@.len() as int) == suffix@);
        r
    }

    /// The first step of storing the list; there is none where there is no place
    /// to keep it.
    pub fn save(has_path: bool) -> (r: SaveStep)
        ensures
            r == if has_path {
                SaveStep::CreateDirectory
            } else {
                SaveStep::Done
            },
    {
        if has_path {
            SaveStep::CreateDirectory
        } else {
            SaveStep::Done
        }
    }
}

/// A step of storing the list.
///
/// It is written through a temporary file: a crash midway through would
/// otherwise leave a truncated file, and the next start would decide that no
/// phone had ever been trusted.
#[derive(Debug, Clone, Copy, PartialEq, Eq, Structural)]
pub enum SaveStep {
    /// Create the directory that holds the list.
    CreateDirectory,
    /// Turn the registry into text.
    Encode,
    /// Write the text into the temporary file.
    WriteTemporary,
    /// Put the temporary file in the place of the list.
    Replace,
    /// Remove the temporary file.
    RemoveTemporary,
    Done,
}

impl SaveStep {
    /// The step that follows one that succeeded or failed.
    pub open spec fn following(self, succeeded: bool) -> SaveStep {
        match (self, succeeded) {
            (SaveStep::CreateDirectory, true) => SaveStep::Encode,
            (SaveStep::Encode, true) => SaveStep::WriteTemporary,
            (SaveStep::WriteTemporary, true) => SaveStep::Replace,
            (SaveStep::Replace, false) => SaveStep::RemoveTemporary,
            _ => SaveStep::Done,
        }
    }

    /// The steps that are taken from one on, where `outcomes` tells in turn how
    /// each of them ends.
    pub open spec fn taken(self, outcomes: Seq<bool>) -> Seq<SaveStep>
        decreases outcomes.len(),
    {
        if self == SaveStep::Done || outcomes.len() == 0 {
            Seq::empty()
        } else {
            seq![self] + self.following(outcomes[0]).taken(outcomes.skip(1))
        }
    }

    /// The step that follows this one.
    pub fn next(self, succeeded: bool) -> (r: SaveStep)
        ensures
            r == self.following(succeeded),
    {
        if succeeded {
            match self {
                SaveStep::CreateDirectory => SaveStep::Encode,
                SaveStep::Encode => SaveStep::WriteTemporary,
                SaveStep::WriteTemporary => SaveStep::Replace,
                _ => SaveStep::Done,
            }
        } else {
            match self {
                SaveStep::Replace => SaveStep::RemoveTemporary,
                _ => SaveStep::Done,
            }
        }
    }
}

/// However the steps end, the list is replaced only right after the temporary
/// file was written whole.
pub proof fn law_only_a_whole_file_replaces_the_list(outcomes: Seq<bool>, i: int)
    requires
        0 <= i < SaveStep::CreateDirectory.taken(outcomes).len(),
        SaveStep::CreateDirectory.taken(outcomes)[i] == SaveStep::Replace,
    ensures
        i > 0,
        SaveStep::CreateDirectory.taken(outcomes)[i - 1] == SaveStep::WriteTemporary,
        outcomes[i - 1],
{
    lemma_before_replace(SaveStep::CreateDirectory, outcomes, i);
}

proof fn lemma_taken_len(step: SaveStep, outcomes: Seq<bool>)
    ensures
        step.taken(outcomes).len() <= outcomes.len(),
    decreases outcomes.len(),
{
    if step != SaveStep::Done && outcomes.len() > 0 {
        lemma_taken_len(step.following(outcomes[0]), outcomes.skip(1));
    }
}

proof fn lemma_before_replace(step: SaveStep, outcomes: Seq<bool>, i: int)
    requires
        0 <= i < step.taken(outcomes).len(),
        step.taken(outcomes)[i] == SaveStep::Replace,
    ensures
        i > 0 || step == SaveStep::Replace,
        i > 0 ==> step.taken(outcomes)[i - 1] == SaveStep::WriteTemporary && outcomes[i - 1],
    decreases i,
{
    if i > 0 {
        let next = step.following(outcomes[0]);
        let rest = outcomes.skip(1);
        assert(step.taken(outcomes)[i] == next.taken(rest)[i - 1]);
        lemma_before_replace(next, rest, i - 1);
        if i > 1 {
            lemma_taken_len(step, outcomes);
            assert(step.taken(outcomes)[i - 1] == next.taken(rest)[i - 2]);
            assert(rest[i - 2] == outcomes[i - 1]);
        }
    }
}

/// The temporary file lies in the directory of the list, where a rename replaces
/// the list at once, and is not the list itself.
pub proof fn law_the_temporary_file_lies_beside_the_list(dir: Seq<u8>, name: Seq<u8>)
    ensures
        temporary(joined(dir, name)) == joined(dir, name + encode_utf8(".tmp"@)),
        temporary(joined(dir, name)) != joined(dir, name),
{
    let suffix = encode_utf8(".tmp"@);
    assert(joined(dir, name) + suffix == joined(dir, name + suffix));
    reveal_strlit(".tmp");
    reveal_with_fuel(encode_utf8, 2);
    assert(suffix.len() > 0);
}

/// A device keeps its first sighting, its alias and its favourites however often
/// it is seen again, and the other devices keep everything.
pub proof fn law_remembering_again_keeps_the_first_sighting(
    known: Map<Seq<char>, KnownView>,
    serial: Seq<char>,
    model: Seq<char>,
    address: Seq<char>,
    now: Seq<char>,
    other: Seq<char>,
)
    ensures
        ({
            let after = remembered(known, serial, model, address, now);
            &&& after.contains_key(serial)
            &&& known.contains_key(serial) ==> {
                &&& after[serial].first_seen == known[serial].first_seen
                &&& after[serial].alias == known[serial].alias
                &&& after[serial].favourites == known[serial].favourites
            }
            &&& !known.contains_key(serial) ==> after[serial].first_seen == now
            &&& other != serial ==> after.contains_key(other) == known.contains_key(other)
            &&& other != serial && known.contains_key(other) ==> after[other] == known[other]
        }),
{
}

/// A device that does not tell its model or its address does not erase the one
/// that is known.
pub proof fn law_silence_erases_nothing(
    known: Map<Seq<char>, KnownView>,
    serial: Seq<char>,
    model: Seq<char>,
    address: Seq<char>,
    now: Seq<char>,
)
    requires
        known.contains_key(serial),
    ensures
        ({
            let after = remembered(known, serial, model, address, now)[serial];
            &&& after.model == if model.len() == 0 {
                known[serial].model
            } else {
                model
            }
            &&& after.last_address == if address.len() == 0 {
                known[serial].last_address
            } else {
                address
            }
        }),
{
}

/// A device that was forgotten is new when it is seen again: it is known again,
/// with nothing of what was recorded before.
pub proof fn law_a_forgotten_device_is_new(
    known: Map<Seq<char>, KnownView>,
    serial: Seq<char>,
    model: Seq<char>,
    address: Seq<char>,
    now: Seq<char>,
)
    ensures
        !known.remove(serial).contains_key(serial),
        remembered(known.remove(serial), serial, model, address, now)[serial] == (KnownView {
            model,
            first_seen: now,
            last_address: address,
            ..KnownView::blank()
        }),
{
    assert(model.len() == 0 ==> model == Seq::<char>::empty());
    assert(address.len() == 0 ==> address == Seq::<char>::empty());
}

/// Storing the rows of a registry and loading them gives the registry back.
pub proof fn law_a_stored_list_is_read_back(
    rows: Seq<(Seq<char>, KnownView)>,
    known: Map<Seq<char>, KnownView>,
)
    requires
        lists(rows, known),
    ensures
        recorded(rows) == known,
{
    lemma_recorded(rows, rows.len() as int, known);
    assert(rows.take(rows.len() as int) == rows);
    assert forall|k: Seq<char>| #[trigger] known.contains_key(k) implies recorded(
        rows,
    ).contains_key(k) by {
        let i = choose|i: int| 0 <= i < rows.len() && rows[i].0 == k;
        assert(recorded(rows).contains_key(rows[i].0));
    }
    assert(recorded(rows) =~= known);
}

proof fn lemma_recorded(
    rows: Seq<(Seq<char>, KnownView)>,
    n: int,
    known: Map<Seq<char>, KnownView>,
)
    requires
        lists(rows, known),
        0 <= n <= rows.len(),
    ensures
        forall|i: int| 0 <= i < n ==> recorded(rows.take(n)).contains_key(#[trigger] rows[i].0),
        forall|k: Seq<char>| #[trigger]
            recorded(rows.take(n)).contains_key(k) ==> known.contains_key(k) && recorded(
                rows.take(n),
            )[k] == known[k],
    decreases n,
{
    if n > 0 {
        lemma_recorded(rows, n - 1, known);
        let head = rows.take(n);
        assert(head.drop_last() == rows.take(n - 1));
        assert(head.last() == rows[n - 1]);
        assert forall|k: Seq<char>| #[trigger] recorded(head).contains_key(k) implies known.contains_key(
            k,
        ) && recorded(head)[k] == known[k] by {
            if k != rows[n - 1].0 {
                assert(recorded(rows.take(n - 1)).contains_key(k));
            }
        }
    }
}

/// A device is shown under the name the person chose, or under its model where they
/// chose none.
pub proof fn law_the_chosen_name_is_shown(known: KnownView)
    ensures
        known.alias.len() > 0 ==> known.shown() == known.alias,
        known.alias.len() == 0 ==> known.shown() == known.model,
{
}

/// Of the rows of a stored list, the last with a serial says what is known of it, and
/// nothing is known of a serial without a row.
pub proof fn law_the_last_row_of_a_serial_counts(
    rows: Seq<(Seq<char>, KnownView)>,
    serial: Seq<char>,
    i: int,
)
    ensures
        (forall|j: int| 0 <= j < rows.len() ==> (#[trigger] rows[j]).0 != serial) ==> !recorded(
            rows,
        ).contains_key(serial),
        0 <= i < rows.len() && rows[i].0 == serial && (forall|j: int|
            i < j < rows.len() ==> (#[trigger] rows[j]).0 != serial) ==> recorded(
            rows,
        ).contains_key(serial) && recorded(rows)[serial] == rows[i].1,
    decreases rows.len(),
{
    if rows.len() > 0 {
        let rest = rows.drop_last();
        let last = rows.len() - 1;
        law_the_last_row_of_a_serial_counts(rest, serial, i);
        assert(rows.last() == rows[last]);
        assert forall|j: int| 0 <= j < rest.len() implies #[trigger] rest[j] == rows[j] by {}
        if forall|j: int| 0 <= j < rows.len() ==> (#[trigger] rows[j]).0 != serial {
            assert(rows[last].0 != serial);
            assert forall|j: int| 0 <= j < rest.len() implies (#[trigger] rest[j]).0 != serial by {
                assert(rows[j].0 != serial);
            }
        }
        if 0 <= i < last && rows[i].0 == serial && (forall|j: int|
            i < j < rows.len() ==> (#[trigger] rows[j]).0 != serial) {
            assert(rows[last].0 != serial);
            assert forall|j: int| i < j < rest.len() implies (#[trigger] rest[j]).0 != serial by {
                assert(rows[j].0 != serial);
            }
        }
    }
}

/// The list lies in `vasak` under the directory for configuration, with one slash
/// between a directory and what lies in it; that directory is the one that the session
/// names, even by no name, else `.config` at home, and without either there is no
/// place.
pub proof fn law_the_list_lies_in_the_configuration(dir: Seq<u8>, home: Option<Seq<u8>>)
    ensures
        ({
            let slash = if dir.len() == 0 || dir.last() == 47 {
                Seq::<u8>::empty()
            } else {
                seq![47u8]
            };
            &&& list_path(Some(dir), home) == Some(
                dir + slash + encode_utf8("vasak"@) + seq![47u8] + encode_utf8("connect.json"@),
            )
            &&& list_path(None, Some(dir)) == Some(
                dir + slash + encode_utf8(".config"@) + seq![47u8] + encode_utf8("vasak"@)
                    + seq![47u8] + encode_utf8("connect.json"@),
            )
        }),
        list_path(None, None) is None,
{
    let vasak = encode_utf8("vasak"@);
    let name = encode_utf8("connect.json"@);
    let config = encode_utf8(".config"@);
    let slash = if dir.len() == 0 || dir.last() == 47 {
        Seq::<u8>::empty()
    } else {
        seq![47u8]
    };
    lemma_ends_without_slash("vasak"@);
    lemma_ends_without_slash(".config"@);
    let base = dir + slash + vasak;
    assert(joined(dir, vasak) == base);
    assert(base.last() == vasak.last());
    assert(base.push(47) + name == base + seq![47u8] + name);
    let below = dir + slash + config;
    assert(joined(dir, config) == below);
    assert(below.last() == config.last());
    let deep = below + seq![47u8] + vasak;
    assert(below.push(47) + vasak == deep);
    assert(deep.last() == vasak.last());
    assert(deep.push(47) + name == deep + seq![47u8] + name);
}

proof fn lemma_ends_without_slash(name: Seq<char>)
    requires
        name == "vasak"@ || name == ".config"@,
    ensures
        encode_utf8(name).len() > 0,
        encode_utf8(name).last() != 47,
{
    reveal_strlit("vasak");
    reveal_strlit(".config");
    assert(vstd::utf8::is_ascii_chars(name));
    vstd::utf8::is_ascii_chars_encode_utf8(name);
    assert(encode_utf8(name)[name.len() - 1] == name[name.len() - 1] as u8);
}

/// The list is stored in four steps, each only after the one before succeeded, and a
/// temporary file that could not take its place is removed.
pub proof fn law_the_steps_of_storing(step: SaveStep)
    ensures
        SaveStep::CreateDirectory.following(true) == SaveStep::Encode,
        SaveStep::Encode.following(true) == SaveStep::WriteTemporary,
        SaveStep::WriteTemporary.following(true) == SaveStep::Replace,
        SaveStep::Replace.following(true) == SaveStep::Done,
        SaveStep::Replace.following(false) == SaveStep::RemoveTemporary,
        step != SaveStep::Replace ==> step.following(false) == SaveStep::Done,
        SaveStep::RemoveTemporary.following(true) == SaveStep::Done,
        SaveStep::Done.following(true) == SaveStep::Done,
{
}

/// What is known of a device is all of its fields, and what the rows of a list hold is
/// each serial with what is known of it.
pub proof fn law_every_field_is_known(
    device: KnownDevice,
    rows: Seq<(String, KnownDevice)>,
    bytes: Option<Vec<u8>>,
)
    ensures
        device@.model == device.model@,
        device@.alias == device.alias@,
        device@.first_seen == device.first_seen@,
        device@.last_address == device.last_address@,
        device@.favourites == texts(device.favourites@),
        row_views(rows).len() == rows.len(),
        forall|i: int|
            0 <= i < rows.len() ==> #[trigger] row_views(rows)[i] == (rows[i].0@, rows[i].1@),
        bytes is None <==> bytes_view(bytes) is None,
        bytes matches Some(v) ==> bytes_view(bytes) == Some(v@),
{
}

} // verus!
