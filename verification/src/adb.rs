//! What `adb` and `scrcpy` print about the phones and their apps.
//!
//! The programs themselves are run elsewhere; this module reads what they said
//! and how they ended.

use vstd::prelude::*;
use vstd::slice::slice_subrange;

use crate::numerals::{number, number_of};
use crate::process::{
    complaint, complaint_of, complaint_or_status, complaint_or_status_of, decoded, push_arg,
    utf8_lossy, Call, CallView, IoError, IoErrorView, Run,
};
use crate::protocol::{Device, DeviceState, DeviceView, Transport};
use crate::text::{
    chars_of, contains_char, equals, ink, is_bare, is_blank, is_space, is_whitespace, is_word,
    law_a_line_ends_at_its_line_feed, law_a_word_is_read_as_it_stands, law_lines_of_two_texts,
    law_trim_takes_white_space, law_trimmed_is_bare, law_white_space_holds_no_word,
    law_words_hold_no_blank, law_words_of_two_texts, lemma_filter_map_of_two, lemma_tail_run,
    lemma_tail_run_is, lines, lines_of, other_than, pieces, space, spaced, spaced_of, starts_with,
    string_of, strip_prefix, tail_run, trim, trim_end, trimmed, trimmed_end, words, words_of,
};

verus! {

broadcast use vstd::string::group_string_axioms;

/// How many seconds adb is waited for: long enough for a phone that is booting
/// or waiting on the debugging prompt, short enough that a wedged adb does not
/// hang the whole service.
pub const CALL_TIMEOUT: u64 = 20;

/// How many seconds a list of apps is waited for. Listing makes the phone walk
/// its whole package database, and giving up turns a slow menu into an empty one.
pub const LIST_APPS_TIMEOUT: u64 = 90;

/// What adb's word for the state of a device means.
pub open spec fn state_of(status: Seq<char>) -> DeviceState {
    if status == "device"@ {
        DeviceState::Ready
    } else if status == "unauthorized"@ {
        DeviceState::Unauthorized
    } else if status == "offline"@ {
        DeviceState::Offline
    } else {
        DeviceState::Connecting
    }
}

/// Whether adb's name for a device is a network address: what follows its last
/// colon is a port.
pub open spec fn is_address(id: Seq<char>) -> bool {
    id.contains(':') && number(after_last_colon(id), u16::MAX as int) is Some
}

pub open spec fn after_last_colon(id: Seq<char>) -> Seq<char> {
    id.skip(id.len() - tail_run(id, other_than(':')))
}

/// The model that the fields of a line name: the last one, if there are
/// several, and nothing if there is none.
pub open spec fn model_in(fields: Seq<Seq<char>>) -> Seq<char>
    decreases fields.len(),
{
    if fields.len() == 0 {
        Seq::empty()
    } else if "model:"@.is_prefix_of(fields.last()) {
        spaced(fields.last().skip("model:"@.len() as int))
    } else {
        model_in(fields.drop_last())
    }
}

/// The device that a line of `adb devices -l` describes. The first line is a
/// header, and adb prints notices on the same stream; neither describes one.
pub open spec fn device_in(line: Seq<char>) -> Option<DeviceView> {
    let text = trim_end(line);
    let fields = words(text);
    if "List of devices"@.is_prefix_of(text) || "*"@.is_prefix_of(text) || fields.len() < 2 {
        None
    } else {
        let id = fields[0];
        let over_tcp = is_address(id);
        Some(
            DeviceView {
                serial: id,
                model: model_in(fields.skip(2)),
                transport: if over_tcp {
                    Transport::Tcp
                } else {
                    Transport::Usb
                },
                state: state_of(fields[1]),
                trusted: false,
                address: if over_tcp {
                    id
                } else {
                    Seq::empty()
                },
            },
        )
    }
}

/// The devices that `adb devices -l` lists, in its order.
pub open spec fn devices_in(out: Seq<char>) -> Seq<DeviceView> {
    lines(out).filter_map(|line: Seq<char>| device_in(line))
}

/// What a list of devices holds.
pub open spec fn device_views(v: Seq<Device>) -> Seq<DeviceView> {
    v.map_values(|d: Device| d@)
}

/// Reads adb's word for the state of a device.
fn parse_state(status: &[char]) -> (r: DeviceState)
    ensures
        r == state_of(status@),
{
    if equals(status, "device") {
        DeviceState::Ready
    } else if equals(status, "unauthorized") {
        DeviceState::Unauthorized
    } else if equals(status, "offline") {
        DeviceState::Offline
    } else {
        // "authorizing", "connecting", "recovery", "sideload": none of them
        // can list apps, and all of them may become usable in a moment.
        DeviceState::Connecting
    }
}

/// Whether adb's name for a device is a network address.
fn looks_like_address(id: &[char]) -> (r: bool)
    ensures
        r == is_address(id@),
{
    if !contains_char(id, ':') {
        return false;
    }
    let mut n: usize = id.len();
    while n > 0 && id[n - 1] != ':'
        invariant
            n <= id@.len(),
            forall|j: int| n <= j < id@.len() ==> other_than(':')(#[trigger] id@[j]),
        decreases n,
    {
        n = n - 1;
    }
    proof {
        lemma_tail_run_is(id@, other_than(':'), id@.len() - n);
    }
    number_of(slice_subrange(id, n, id.len()), 65_535).is_some()
}

/// Reads one line of `adb devices -l`.
fn parse_device(line: &[char]) -> (r: Option<Device>)
    ensures
        match r {
            Some(device) => device_in(line@) == Some(device@),
            None => device_in(line@) is None,
        },
{
    let text = trimmed_end(line);
    if starts_with(text, "List of devices") || starts_with(text, "*") {
        return None;
    }
    let fields = words_of(text);
    let ghost spelled = words(text@);
    assert(pieces(fields@) == spelled);
    if fields.len() < 2 {
        return None;
    }
    let id = fields[0];
    let status = fields[1];
    assert(id@ == spelled[0] && status@ == spelled[1]);

    // `adb connect` identifies network devices as host:port, and that is also
    // their serial as far as adb is concerned.
    let over_tcp = looks_like_address(id);

    let mut model = String::new();
    assert(spelled.subrange(2, 2) == Seq::<Seq<char>>::empty());
    for i in 2..fields.len()
        invariant
            fields@.len() >= 2,
            pieces(fields@) == spelled,
            model@ == model_in(spelled.subrange(2, i as int)),
    {
        let field = fields[i];
        assert(field@ == spelled[i as int]);
        assert(spelled.subrange(2, i + 1).drop_last() == spelled.subrange(2, i as int));
        if let Some(value) = strip_prefix(field, "model:") {
            model = spaced_of(value);
        }
    }
    assert(spelled.subrange(2, spelled.len() as int) == spelled.skip(2));
    Some(
        Device {
            serial: string_of(id),
            model,
            transport: if over_tcp {
                Transport::Tcp
            } else {
                Transport::Usb
            },
            state: parse_state(status),
            trusted: false,  // filled in by the registry, which owns that answer
            address: if over_tcp {
                string_of(id)
            } else {
                String::new()
            },
        },
    )
}

/// Everything that `adb devices -l` lists.
pub fn parse_devices(out: &str) -> (devices: Vec<Device>)
    ensures
        device_views(devices@) == devices_in(out@),
{
    let chars = chars_of(out);
    let rows = lines_of(chars.as_slice());
    let ghost spelled = lines(out@);
    let ghost read = |line: Seq<char>| device_in(line);
    let mut devices: Vec<Device> = Vec::new();
    assert(spelled.take(0) == Seq::<Seq<char>>::empty());
    reveal(Seq::filter_map);
    for i in 0..rows.len()
        invariant
            pieces(rows@) == spelled,
            read == (|line: Seq<char>| device_in(line)),
            device_views(devices@) == spelled.take(i as int).filter_map(read),
    {
        let ghost before = device_views(devices@);
        assert(rows@[i as int]@ == spelled[i as int]);
        proof {
            spelled.lemma_filter_map_take_succ(read, i as int);
        }
        if let Some(device) = parse_device(rows[i]) {
            devices.push(device);
            assert(device_views(devices@) == before.push(device@));
        }
    }
    assert(spelled.take(spelled.len() as int) == spelled);
    devices
}

/// What a character of a package name can be.
pub open spec fn is_package_char(c: char) -> bool {
    ||| 'a' <= c && c <= 'z'
    ||| 'A' <= c && c <= 'Z'
    ||| '0' <= c && c <= '9'
    ||| c == '.'
    ||| c == '_'
    ||| c == '-'
}

/// The shape of a package name: every real package has at least one dot and no
/// blank.
pub open spec fn is_package(s: Seq<char>) -> bool {
    s.contains('.') && forall|i: int| 0 <= i < s.len() ==> is_package_char(#[trigger] s[i])
}

/// An app as scrcpy lists it: its package, its label, and whether it came with
/// the system.
pub type AppEntry = (Seq<char>, Seq<char>, bool);

/// What follows the mark of an app on a line without white space around it, and
/// whether the mark is that of an app that came with the system; `None` where the
/// line has no mark.
pub open spec fn marked(line: Seq<char>) -> Option<(Seq<char>, bool)> {
    if "* "@.is_prefix_of(line) {
        Some((line.skip("* "@.len() as int), true))
    } else if "- "@.is_prefix_of(line) {
        Some((line.skip("- "@.len() as int), false))
    } else {
        None
    }
}

/// The app that a line names after its mark, where its package is the last word.
/// Package names hold no blank, so whatever precedes it is the label, blanks and
/// all.
pub open spec fn app_on_line(rest: Seq<char>, system: bool) -> Option<AppEntry> {
    let n = rest.len() - tail_run(rest, ink());
    if n > 0 && is_package(rest.skip(n)) {
        Some((rest.skip(n), trim(rest.take(n - 1)), system))
    } else {
        None
    }
}

/// The apps that a list of lines names.
///
/// A package alone on the line after a marked one was pushed there by the label,
/// which is then all of the marked line, whatever its last word looks like. A
/// label without a package is dropped rather than paired with the wrong one.
pub open spec fn apps_in_lines(rows: Seq<Seq<char>>) -> Seq<AppEntry>
    decreases rows.len(),
{
    if rows.len() == 0 {
        Seq::empty()
    } else {
        match marked(trim(rows[0])) {
            None => apps_in_lines(rows.skip(1)),
            Some((rest, system)) => if rows.len() > 1 && is_package(trim(rows[1])) {
                seq![(trim(rows[1]), trim(rest), system)] + apps_in_lines(rows.skip(2))
            } else {
                match app_on_line(rest, system) {
                    Some(app) => seq![app] + apps_in_lines(rows.skip(1)),
                    None => apps_in_lines(rows.skip(1)),
                }
            },
        }
    }
}

/// The apps that `scrcpy --list-apps` names, in its order.
pub open spec fn apps_in(out: Seq<char>) -> Seq<AppEntry> {
    apps_in_lines(lines(out))
}

/// What a list of apps holds.
pub open spec fn app_entries(v: Seq<(String, String, bool)>) -> Seq<AppEntry> {
    v.map_values(|a: (String, String, bool)| (a.0@, a.1@, a.2))
}

fn package_shape(text: &[char]) -> (r: bool)
    ensures
        r == is_package(text@),
{
    for i in 0..text.len()
        invariant
            forall|j: int| 0 <= j < i ==> is_package_char(#[trigger] text@[j]),
    {
        let c = text[i];
        if !(('a' <= c && c <= 'z') || ('A' <= c && c <= 'Z') || ('0' <= c && c <= '9') || c == '.'
            || c == '_' || c == '-') {
            return false;
        }
    }
    contains_char(text, '.')
}

/// A cheap shape test, not a validator.
///
/// It only has to tell a package name apart from a piece of a label.
pub fn looks_like_package(text: &str) -> (r: bool)
    ensures
        r == is_package(text@),
{
    let chars = chars_of(text);
    package_shape(chars.as_slice())
}

/// Reads what follows the mark of an app.
fn strip_mark<'a>(line: &'a [char]) -> (r: Option<(&'a [char], bool)>)
    ensures
        match r {
            Some((rest, system)) => marked(line@) == Some((rest@, system)),
            None => marked(line@) is None,
        },
{
    if let Some(rest) = strip_prefix(line, "* ") {
        return Some((rest, true));
    }
    match strip_prefix(line, "- ") {
        Some(rest) => Some((rest, false)),
        None => None,
    }
}

/// Reads an app whose package is the last word of its line.
fn parse_app_on_line(rest: &[char], system: bool) -> (r: Option<(String, String, bool)>)
    ensures
        match r {
            Some(app) => app_on_line(rest@, system) == Some((app.0@, app.1@, app.2)),
            None => app_on_line(rest@, system) is None,
        },
{
    let mut n: usize = rest.len();
    while n > 0 && !is_whitespace(rest[n - 1])
        invariant
            n <= rest@.len(),
            forall|j: int| n <= j < rest@.len() ==> ink()(#[trigger] rest@[j]),
        decreases n,
    {
        n = n - 1;
    }
    proof {
        lemma_tail_run_is(rest@, ink(), rest@.len() - n);
    }
    if n > 0 {
        let package = slice_subrange(rest, n, rest.len());
        if package_shape(package) {
            let label = slice_subrange(rest, 0, n - 1);
            return Some((string_of(package), string_of(trimmed(label)), system));
        }
    }
    None
}

/// Parses `scrcpy --list-apps`.
///
/// The format is ` * Label   package` for system apps and ` - Label  package`
/// for user ones, with the package right-aligned in a fixed column. A label
/// longer than that column pushes the package onto the *next* line, which is the
/// case this has to get right:
///
/// ```text
///  * Accesibilidad con interruptores
///                                   com.google.android.accessibility.switchaccess
/// ```
///
/// So the next line decides: the label may itself end in a word that looks like a
/// package.
pub fn parse_apps(out: &str) -> (apps: Vec<(String, String, bool)>)
    ensures
        app_entries(apps@) == apps_in(out@),
{
    let chars = chars_of(out);
    let rows = lines_of(chars.as_slice());
    let ghost spelled = lines(out@);
    let total = rows.len();
    let mut apps: Vec<(String, String, bool)> = Vec::new();
    let mut i: usize = 0;
    assert(spelled.skip(0) == spelled);
    while i < total
        invariant
            i <= total,
            total == rows@.len(),
            pieces(rows@) == spelled,
            apps_in(out@) == app_entries(apps@) + apps_in_lines(spelled.skip(i as int)),
        decreases total - i,
    {
        let ghost before = app_entries(apps@);
        let ghost left = spelled.skip(i as int);
        assert(rows@[i as int]@ == left[0]);
        assert(left.skip(1) == spelled.skip(i + 1));
        let mut next = i + 1;
        if let Some((rest, system)) = strip_mark(trimmed(rows[i])) {
            let mut wrapped = false;
            if next < total {
                assert(rows@[next as int]@ == left[1]);
                assert(left.skip(2) == spelled.skip(i + 2));
                // A continuation line: only the package, indented under the label.
                let line = trimmed(rows[next]);
                if package_shape(line) {
                    let label = trimmed(rest);
                    let app = (string_of(line), string_of(label), system);
                    apps.push(app);
                    assert(app_entries(apps@) == before.push((line@, label@, system)));
                    wrapped = true;
                    next = next + 1;
                }
            }
            if !wrapped {
                if let Some(app) = parse_app_on_line(rest, system) {
                    apps.push(app);
                    assert(app_entries(apps@) == before.push((app.0@, app.1@, app.2)));
                }
            }
        }
        assert(apps_in(out@) == app_entries(apps@) + apps_in_lines(spelled.skip(next as int)));
        i = next;
    }
    assert(spelled.skip(spelled.len() as int) == Seq::<Seq<char>>::empty());
    assert(app_entries(apps@) + Seq::<AppEntry>::empty() == app_entries(apps@));
    apps
}

#[derive(Debug)]
pub enum AdbError {
    /// `adb` is not installed.
    Missing,
    /// The call took too long.
    TimedOut,
    /// adb ran and failed; the string is whatever it said.
    Failed(String),
    Io(IoError),
}

pub enum AdbErrorView {
    Missing,
    TimedOut,
    Failed(Seq<char>),
    Io(IoErrorView),
}

impl View for AdbError {
    type V = AdbErrorView;

    open spec fn view(&self) -> AdbErrorView {
        match self {
            AdbError::Missing => AdbErrorView::Missing,
            AdbError::TimedOut => AdbErrorView::TimedOut,
            AdbError::Failed(msg) => AdbErrorView::Failed(msg@),
            AdbError::Io(err) => AdbErrorView::Io(err@),
        }
    }
}

impl AdbErrorView {
    /// The error in words.
    pub open spec fn message(self) -> Seq<char> {
        match self {
            AdbErrorView::Missing => "adb no está instalado"@,
            AdbErrorView::TimedOut => "adb no respondió a tiempo"@,
            AdbErrorView::Failed(msg) => "adb falló: "@ + msg,
            AdbErrorView::Io(err) => "no se pudo ejecutar adb: "@ + err.message,
        }
    }
}

impl AdbError {
    /// The error in words.
    pub fn message(&self) -> (r: String)
        ensures
            r@ == self@.message(),
    {
        match self {
            AdbError::Missing => "adb no está instalado".to_owned(),
            AdbError::TimedOut => "adb no respondió a tiempo".to_owned(),
            AdbError::Failed(msg) => "adb falló: ".to_owned().concat(msg.as_str()),
            AdbError::Io(err) => "no se pudo ejecutar adb: ".to_owned().concat(
                err.message.as_str(),
            ),
        }
    }
}

impl From<IoError> for AdbError {
    fn from(err: IoError) -> (r: AdbError) {
        if err.not_found {
            AdbError::Missing
        } else {
            AdbError::Io(err)
        }
    }
}

impl vstd::std_specs::convert::FromSpecImpl<IoError> for AdbError {
    open spec fn obeys_from_spec() -> bool {
        true
    }

    open spec fn from_spec(err: IoError) -> AdbError {
        if err.not_found {
            AdbError::Missing
        } else {
            AdbError::Io(err)
        }
    }
}

/// What the end of a program amounts to when the program is missing, cannot be
/// run, or takes too long.
pub open spec fn not_ended(run: Run) -> AdbErrorView
    recommends
        !(run is Ended),
{
    match run {
        Run::NotRun(err) if !err.not_found => AdbErrorView::Io(err@),
        Run::TimedOut => AdbErrorView::TimedOut,
        _ => AdbErrorView::Missing,
    }
}

/// What adb answered, given what it printed.
///
/// Succeeds exactly where adb did; a failure carries adb's own words, or its
/// exit status where it said nothing.
pub fn answer(success: bool, status: &str, stdout: String, stderr: &str) -> (r: Result<
    String,
    AdbError,
>)
    ensures
        match r {
            Ok(text) => success && text@ == stdout@,
            Err(err) => !success && err@ == AdbErrorView::Failed(
                complaint_or_status(stderr@, status@),
            ),
        },
{
    if !success {
        return Err(AdbError::Failed(complaint_or_status_of(stderr, status)));
    }
    Ok(stdout)
}

/// What a run of adb answered.
pub fn run_answer(run: Run) -> (r: Result<String, AdbError>)
    ensures
        match (run, r) {
            (Run::Ended(output), Ok(text)) => output.success && text@ == utf8_lossy(
                output.stdout@,
            ),
            (Run::Ended(output), Err(err)) => !output.success && err@ == AdbErrorView::Failed(
                complaint_or_status(utf8_lossy(output.stderr@), output.status@),
            ),
            (_, Ok(_)) => false,
            (_, Err(err)) => err@ == not_ended(run),
        },
{
    match run {
        Run::NotRun(err) => Err(AdbError::from(err)),
        Run::TimedOut => Err(AdbError::TimedOut),
        Run::Ended(output) => {
            let stdout = decoded(output.stdout.as_slice());
            let stderr = decoded(output.stderr.as_slice());
            answer(output.success, output.status.as_str(), stdout, stderr.as_str())
        },
    }
}

/// How the adb server is started.
///
/// Done when udev reports a device, never just to ask a question.
pub fn start_server_call() -> (r: Call)
    ensures
        r@ == (CallView { program: "adb"@, args: seq!["start-server"@], limit: 20 }),
{
    let mut args: Vec<String> = Vec::new();
    push_arg(&mut args, "start-server");
    let r = Call { program: "adb".to_owned(), args, limit: CALL_TIMEOUT };
    assert(r@.args == seq!["start-server"@]);
    r
}

/// Whether a run of `adb start-server` succeeded.
pub fn start_server(run: Run) -> (r: Result<(), AdbError>)
    ensures
        match (run, r) {
            (Run::Ended(output), Ok(_)) => output.success,
            (Run::Ended(output), Err(err)) => !output.success && err@ == AdbErrorView::Failed(
                complaint_or_status(utf8_lossy(output.stderr@), output.status@),
            ),
            (_, Ok(_)) => false,
            (_, Err(err)) => err@ == not_ended(run),
        },
{
    match run_answer(run) {
        Ok(_) => Ok(()),
        Err(err) => Err(err),
    }
}

/// How adb is asked for everything it can currently see.
pub fn devices_call() -> (r: Call)
    ensures
        r@ == (CallView { program: "adb"@, args: seq!["devices"@, "-l"@], limit: 20 }),
{
    let mut args: Vec<String> = Vec::new();
    push_arg(&mut args, "devices");
    push_arg(&mut args, "-l");
    let r = Call { program: "adb".to_owned(), args, limit: CALL_TIMEOUT };
    assert(r@.args == seq!["devices"@, "-l"@]);
    r
}

/// The devices that a run of `adb devices -l` reported.
///
/// The serial reported here is the same `ID_SERIAL_SHORT` udev gives for a USB
/// device, which is what lets the two views of the same phone be matched.
pub fn devices(run: Run) -> (r: Result<Vec<Device>, AdbError>)
    ensures
        match (run, r) {
            (Run::Ended(output), Ok(devices)) => output.success && device_views(devices@)
                == devices_in(utf8_lossy(output.stdout@)),
            (Run::Ended(output), Err(err)) => !output.success && err@ == AdbErrorView::Failed(
                complaint_or_status(utf8_lossy(output.stderr@), output.status@),
            ),
            (_, Ok(_)) => false,
            (_, Err(err)) => err@ == not_ended(run),
        },
{
    match run_answer(run) {
        Ok(text) => Ok(parse_devices(text.as_str())),
        Err(err) => Err(err),
    }
}

/// The apps that `scrcpy --list-apps` reported, given what it printed. A failure
/// carries scrcpy's own words, even if there are none.
pub fn apps_reported(success: bool, stdout: &str, stderr: &str) -> (r: Result<
    Vec<(String, String, bool)>,
    AdbError,
>)
    ensures
        match r {
            Ok(apps) => success && app_entries(apps@) == apps_in(stdout@),
            Err(err) => !success && err@ == AdbErrorView::Failed(complaint(stderr@)),
        },
{
    if !success {
        return Err(AdbError::Failed(complaint_of(stderr)));
    }
    Ok(parse_apps(stdout))
}

/// How the apps installed on a device are asked for, with their names in the
/// phone's language.
///
/// This asks scrcpy rather than adb: Android has no shell command that returns an
/// app's display name.
pub fn list_apps_call(serial: &str) -> (r: Call)
    ensures
        r@ == (CallView {
            program: "scrcpy"@,
            args: seq!["-s"@, serial@, "--list-apps"@],
            limit: 90,
        }),
{
    let mut args: Vec<String> = Vec::new();
    push_arg(&mut args, "-s");
    push_arg(&mut args, serial);
    push_arg(&mut args, "--list-apps");
    let r = Call { program: "scrcpy".to_owned(), args, limit: LIST_APPS_TIMEOUT };
    assert(r@.args == seq!["-s"@, serial@, "--list-apps"@]);
    r
}

/// The apps that a run of `scrcpy --list-apps` reported: package, label, and
/// whether the app came with the system.
pub fn list_apps(run: Run) -> (r: Result<Vec<(String, String, bool)>, AdbError>)
    ensures
        match (run, r) {
            (Run::Ended(output), Ok(apps)) => output.success && app_entries(apps@) == apps_in(
                utf8_lossy(output.stdout@),
            ),
            (Run::Ended(output), Err(err)) => !output.success && err@ == AdbErrorView::Failed(
                complaint(utf8_lossy(output.stderr@)),
            ),
            (_, Ok(_)) => false,
            (_, Err(err)) => err@ == not_ended(run),
        },
{
    match run {
        Run::NotRun(err) => Err(AdbError::from(err)),
        Run::TimedOut => Err(AdbError::TimedOut),
        Run::Ended(output) => {
            let stdout = decoded(output.stdout.as_slice());
            let stderr = decoded(output.stderr.as_slice());
            apps_reported(output.success, stdout.as_str(), stderr.as_str())
        },
    }
}

/// Every listed device comes from a line whose first word is its serial and whose
/// second word alone settles its state. It has an address exactly where it is
/// reached over the network: its serial. None is trusted yet.
pub proof fn law_listed_devices(out: Seq<char>, i: int)
    requires
        0 <= i < devices_in(out).len(),
    ensures
        ({
            let device = devices_in(out)[i];
            &&& device.serial.len() > 0
            &&& forall|j: int|
                0 <= j < device.serial.len() ==> !is_space(#[trigger] device.serial[j])
            &&& !device.trusted
            &&& device.transport == Transport::Tcp <==> is_address(device.serial)
            &&& device.address == if device.transport == Transport::Tcp {
                device.serial
            } else {
                Seq::empty()
            }
            &&& exists|line: Seq<char>|
                {
                    &&& #[trigger] lines(out).contains(line)
                    &&& words(line).len() >= 2
                    &&& device.serial == words(line)[0]
                    &&& device.state == DeviceState::Ready <==> words(line)[1] == "device"@
                    &&& device.state == DeviceState::Unauthorized <==> words(line)[1]
                        == "unauthorized"@
                    &&& device.state == DeviceState::Offline <==> words(line)[1] == "offline"@
                }
        }),
{
    let read = |line: Seq<char>| device_in(line);
    let device = devices_in(out)[i];
    assert(devices_in(out).contains(device));
    lines(out).lemma_filter_map_contains(read, device);
    let line = choose|line: Seq<char>| lines(out).contains(line) && read(line) == Some(device);
    lemma_words_without_the_end(line);
    law_words_hold_no_blank(line);
    assert(device.serial == words(line)[0]);
    lemma_states_differ();
    assert(lines(out).contains(line));
}

proof fn lemma_states_differ()
    ensures
        "device"@ != "unauthorized"@,
        "device"@ != "offline"@,
        "unauthorized"@ != "offline"@,
{
    reveal_strlit("device");
    reveal_strlit("unauthorized");
    reveal_strlit("offline");
    assert("device"@.len() == 6 && "unauthorized"@.len() == 12 && "offline"@.len() == 7);
}

/// White space at the end of a line holds no word.
proof fn lemma_words_without_the_end(line: Seq<char>)
    ensures
        words(trim_end(line)) == words(line),
{
    lemma_tail_run(line, space());
    let text = trim_end(line);
    let end = line.skip(text.len() as int);
    assert forall|j: int| 0 <= j < end.len() implies is_space(#[trigger] end[j]) by {
        assert(space()(line[text.len() + j]));
    }
    assert(line == text + end);
    law_words_of_two_texts(text, end);
    law_white_space_holds_no_word(end, Seq::empty());
    assert(words(text) + Seq::<Seq<char>>::empty() == words(text));
}

/// What is read goes by the lines alone, however they end.
pub proof fn law_lists_are_read_line_by_line(a: Seq<char>, b: Seq<char>)
    requires
        lines(a) == lines(b),
    ensures
        devices_in(a) == devices_in(b),
        apps_in(a) == apps_in(b),
{
}

/// The devices of two lists, one after the other, are those of the one, then those
/// of the other.
pub proof fn law_devices_of_two_lists(a: Seq<char>, b: Seq<char>)
    requires
        a.len() > 0 ==> a.last() == '\n',
    ensures
        devices_in(a + b) == devices_in(a) + devices_in(b),
        devices_in(Seq::empty()) == Seq::<DeviceView>::empty(),
{
    law_lines_of_two_texts(a, b);
    lemma_filter_map_of_two(lines(a), lines(b), |line: Seq<char>| device_in(line));
    reveal(Seq::filter_map);
}

/// A header, a notice of adb, and a line with fewer than two words are no device.
pub proof fn law_notices_are_no_devices(line: Seq<char>)
    requires
        !line.contains('\n'),
        line.len() == 0 || line.last() != '\r',
        "List of devices"@.is_prefix_of(line) || (line.len() > 0 && line[0] == '*') || words(
            line,
        ).len() < 2,
    ensures
        devices_in(line.push('\n')) == Seq::<DeviceView>::empty(),
{
    law_a_line_ends_at_its_line_feed(line);
    lemma_words_without_the_end(line);
    lemma_tail_run(line, space());
    reveal_strlit("List of devices");
    reveal_strlit("*");
    let text = trim_end(line);
    let cut = tail_run(line, space());
    if "List of devices"@.is_prefix_of(line) {
        assert("List of devices"@[14] == 's');
        assert(line.subrange(0, 15)[14] == line[14]);
        assert(text.len() > 14) by {
            if text.len() <= 14 {
                assert(space()(line[14]));
            }
        }
        assert("List of devices"@.is_prefix_of(text));
    } else if line.len() > 0 && line[0] == '*' {
        assert(text.len() > 0) by {
            if text.len() == 0 {
                assert(space()(line[0]));
            }
        }
        assert(text[0] == '*');
        assert("*"@.is_prefix_of(text));
    }
    Seq::lemma_filter_map_singleton(line, |l: Seq<char>| device_in(l));
}

/// A line of `adb devices -l` that is neither a header nor a notice is one device:
/// its first word is the serial, its second word settles the state, and of the words
/// behind them only the last that begins with `model:` matters.
pub proof fn law_a_listed_phone_is_read_as_it_stands(
    pad: Seq<char>,
    serial: Seq<char>,
    gap: Seq<char>,
    status: Seq<char>,
    tail: Seq<char>,
)
    requires
        is_blank(pad),
        is_word(serial),
        is_blank(gap),
        gap.len() > 0,
        is_word(status),
        tail.len() > 0 ==> is_space(tail[0]),
        ({
            let line = pad + serial + gap + status + tail;
            &&& !line.contains('\n')
            &&& line.last() != '\r'
            &&& line[0] != '*'
            &&& !"List of devices"@.is_prefix_of(line)
        }),
    ensures
        ({
            let devices = devices_in((pad + serial + gap + status + tail).push('\n'));
            let device = devices[0];
            let named = |k: int| 0 <= k < words(tail).len() && "model:"@.is_prefix_of(words(tail)[k]);
            &&& devices.len() == 1
            &&& device.serial == serial
            &&& device.state == (if status == "device"@ {
                DeviceState::Ready
            } else if status == "unauthorized"@ {
                DeviceState::Unauthorized
            } else if status == "offline"@ {
                DeviceState::Offline
            } else {
                DeviceState::Connecting
            })
            &&& !device.trusted
            &&& device.transport == Transport::Tcp <==> exists|k: int|
                {
                    &&& 0 <= k < serial.len()
                    &&& #[trigger] serial[k] == ':'
                    &&& !serial.skip(k + 1).contains(':')
                    &&& number(serial.skip(k + 1), 65_535) is Some
                }
            &&& device.address == if device.transport == Transport::Tcp {
                serial
            } else {
                Seq::empty()
            }
            &&& (forall|k: int| !#[trigger] named(k)) ==> device.model.len() == 0
            &&& forall|k: int|
                #[trigger] named(k) && (forall|x: int| k < x ==> !#[trigger] named(x)) ==> {
                    let told = words(tail)[k].skip(6);
                    &&& device.model.len() == told.len()
                    &&& forall|j: int|
                        0 <= j < told.len() ==> #[trigger] device.model[j] == (if told[j] == '_' {
                            ' '
                        } else {
                            told[j]
                        })
                }
        }),
{
    let line = pad + serial + gap + status + tail;
    let text = trim_end(line);
    let named = |k: int| 0 <= k < words(tail).len() && "model:"@.is_prefix_of(words(tail)[k]);
    law_a_line_ends_at_its_line_feed(line);
    lemma_words_without_the_end(line);
    lemma_tail_run(line, space());
    reveal_strlit("List of devices");
    reveal_strlit("*");
    reveal_strlit("model:");
    let rest = gap + status + tail;
    assert(line == pad + serial + rest);
    law_a_word_is_read_as_it_stands(pad, serial, rest);
    law_a_word_is_read_as_it_stands(gap, status, tail);
    let fields = words(line);
    assert(fields[0] == serial);
    assert(fields[1] == status);
    assert(fields.skip(2) == words(tail));
    if "List of devices"@.is_prefix_of(text) {
        assert("List of devices"@.is_prefix_of(line));
    }
    if "*"@.is_prefix_of(text) {
        assert("*"@[0] == '*');
        assert(text.subrange(0, 1)[0] == text[0]);
        assert(line[0] == '*');
    }
    Seq::lemma_filter_map_singleton(line, |l: Seq<char>| device_in(l));
    lemma_address(serial);
    if forall|k: int| !#[trigger] named(k) {
        assert forall|k: int| 0 <= k < words(tail).len() implies !"model:"@.is_prefix_of(
            #[trigger] words(tail)[k],
        ) by {
            assert(!named(k));
        }
        lemma_no_model(words(tail));
    }
    assert forall|k: int|
        #[trigger] named(k) && (forall|x: int| k < x ==> !#[trigger] named(x)) implies model_in(
        words(tail),
    ) == spaced(words(tail)[k].skip(6)) by {
        assert forall|x: int| k < x < words(tail).len() implies !"model:"@.is_prefix_of(
            #[trigger] words(tail)[x],
        ) by {
            assert(!named(x));
        }
        lemma_last_model(words(tail), k);
    }
}

proof fn lemma_no_model(fields: Seq<Seq<char>>)
    requires
        forall|k: int| 0 <= k < fields.len() ==> !"model:"@.is_prefix_of(#[trigger] fields[k]),
    ensures
        model_in(fields).len() == 0,
    decreases fields.len(),
{
    if fields.len() > 0 {
        let rest = fields.drop_last();
        assert(fields.last() == fields[fields.len() - 1]);
        assert forall|k: int| 0 <= k < rest.len() implies !"model:"@.is_prefix_of(
            #[trigger] rest[k],
        ) by {
            assert(rest[k] == fields[k]);
        }
        lemma_no_model(rest);
    }
}

proof fn lemma_last_model(fields: Seq<Seq<char>>, k: int)
    requires
        0 <= k < fields.len(),
        "model:"@.is_prefix_of(fields[k]),
        forall|x: int| k < x < fields.len() ==> !"model:"@.is_prefix_of(#[trigger] fields[x]),
    ensures
        model_in(fields) == spaced(fields[k].skip("model:"@.len() as int)),
    decreases fields.len(),
{
    assert(fields.last() == fields[fields.len() - 1]);
    if k < fields.len() - 1 {
        let rest = fields.drop_last();
        assert(rest[k] == fields[k]);
        assert forall|x: int| k < x < rest.len() implies !"model:"@.is_prefix_of(
            #[trigger] rest[x],
        ) by {
            assert(rest[x] == fields[x]);
        }
        lemma_last_model(rest, k);
    }
}

/// An address is a host, a colon and a port.
proof fn lemma_address(id: Seq<char>)
    ensures
        is_address(id) <==> exists|k: int|
            {
                &&& 0 <= k < id.len()
                &&& #[trigger] id[k] == ':'
                &&& !id.skip(k + 1).contains(':')
                &&& number(id.skip(k + 1), 65_535) is Some
            },
{
    if id.contains(':') {
        let k = lemma_last_colon(id);
        assert(is_address(id) == number(id.skip(k + 1), 65_535) is Some);
    }
    assert forall|k: int| 0 <= k < id.len() && #[trigger] id[k] == ':' && !id.skip(k + 1).contains(
        ':',
    ) implies is_address(id) == number(id.skip(k + 1), 65_535) is Some by {
        lemma_is_last_colon(id, k);
    }
    assert(is_address(id) ==> id.contains(':'));
}

/// A colon with none behind it is the last.
proof fn lemma_is_last_colon(id: Seq<char>, k: int)
    requires
        0 <= k < id.len(),
        id[k] == ':',
        !id.skip(k + 1).contains(':'),
    ensures
        after_last_colon(id) == id.skip(k + 1),
        id.contains(':'),
{
    let p = other_than(':');
    let port = id.skip(k + 1);
    assert forall|j: int| id.len() - port.len() <= j < id.len() implies p(#[trigger] id[j]) by {
        assert(port[j - k - 1] == id[j]);
        if id[j] == ':' {
            assert(port.contains(':'));
        }
    }
    assert(!p(id[k]));
    lemma_tail_run_is(id, p, port.len() as int);
}

/// A text with a colon has a last one.
proof fn lemma_last_colon(id: Seq<char>) -> (k: int)
    requires
        id.contains(':'),
    ensures
        0 <= k < id.len(),
        id[k] == ':',
        !id.skip(k + 1).contains(':'),
        after_last_colon(id) == id.skip(k + 1),
    decreases id.len(),
{
    let last = id.len() - 1;
    let rest = id.drop_last();
    if id[last] == ':' {
        assert(id.skip(last + 1) == Seq::<char>::empty());
        lemma_is_last_colon(id, last);
        last
    } else {
        let x = choose|x: int| 0 <= x < id.len() && id[x] == ':';
        assert(rest[x] == ':');
        let k = lemma_last_colon(rest);
        let port = id.skip(k + 1);
        assert(!port.contains(':')) by {
            if port.contains(':') {
                let y = choose|y: int| 0 <= y < port.len() && port[y] == ':';
                assert(rest.skip(k + 1)[y] == ':');
            }
        }
        assert(id[k] == rest[k]);
        lemma_is_last_colon(id, k);
        k
    }
}

/// Every listed app has the name of a package, and a label without white space
/// around it.
pub proof fn law_listed_apps(out: Seq<char>, i: int)
    requires
        0 <= i < apps_in(out).len(),
    ensures
        is_package(apps_in(out)[i].0),
        is_bare(apps_in(out)[i].1),
{
    lemma_apps_in_lines(lines(out), i);
}

proof fn lemma_apps_in_lines(rows: Seq<Seq<char>>, i: int)
    requires
        0 <= i < apps_in_lines(rows).len(),
    ensures
        is_package(apps_in_lines(rows)[i].0),
        is_bare(apps_in_lines(rows)[i].1),
    decreases rows.len(),
{
    match marked(trim(rows[0])) {
        None => lemma_apps_in_lines(rows.skip(1), i),
        Some((rest, system)) => {
            law_trimmed_is_bare(rest);
            law_trimmed_is_bare(rest.take(rest.len() - tail_run(rest, ink()) - 1));
            if rows.len() > 1 && is_package(trim(rows[1])) {
                if i > 0 {
                    lemma_apps_in_lines(rows.skip(2), i - 1);
                }
            } else if app_on_line(rest, system) is None {
                lemma_apps_in_lines(rows.skip(1), i);
            } else if i > 0 {
                lemma_apps_in_lines(rows.skip(1), i - 1);
            }
        },
    }
}

/// What scrcpy puts before the label of an app.
pub open spec fn mark(system: bool) -> Seq<char> {
    if system {
        "* "@
    } else {
        "- "@
    }
}

/// An app is read as the same app whether its package follows its label on the
/// same line or was pushed onto the next, and its label survives, blanks and
/// all, whatever it ends in. The lines after it are read as if they stood alone.
///
/// Left out are an empty label, and an app on one line before a package that
/// stands alone: that package is taken for the one that the line pushed away.
pub proof fn law_a_wrapped_label_is_the_same_app(
    pad: Seq<char>,
    label: Seq<char>,
    gap: Seq<char>,
    package: Seq<char>,
    system: bool,
    after: Seq<Seq<char>>,
)
    requires
        is_blank(pad),
        is_blank(gap),
        is_bare(label),
        label.len() > 0,
        is_package(package),
    ensures
        apps_in_lines(seq![pad + mark(system) + label, gap + package] + after) == seq![
            (package, label, system),
        ] + apps_in_lines(after),
        gap.len() > 0 && (after.len() > 0 ==> !is_package(trim(after[0]))) ==> apps_in_lines(
            seq![pad + mark(system) + label + gap + package] + after,
        ) == seq![(package, label, system)] + apps_in_lines(after),
{
    lemma_wrapped(pad, label, gap, package, system, after);
    if gap.len() > 0 && (after.len() > 0 ==> !is_package(trim(after[0]))) {
        lemma_on_one_line(pad, label, gap, package, system, after);
    }
}

proof fn lemma_wrapped(
    pad: Seq<char>,
    label: Seq<char>,
    gap: Seq<char>,
    package: Seq<char>,
    system: bool,
    after: Seq<Seq<char>>,
)
    requires
        is_blank(pad),
        is_blank(gap),
        is_bare(label),
        label.len() > 0,
        is_package(package),
    ensures
        apps_in_lines(seq![pad + mark(system) + label, gap + package] + after) == seq![
            (package, label, system),
        ] + apps_in_lines(after),
{
    let none = Seq::<char>::empty();
    let rows = seq![pad + mark(system) + label, gap + package] + after;
    lemma_package_is_ink(package);
    lemma_marked_row(pad, label, system);
    assert(label == none + label + none);
    law_trim_takes_white_space(none, label, none);
    assert(gap + package == gap + package + none);
    law_trim_takes_white_space(gap, package, none);
    assert(rows[0] == pad + mark(system) + label);
    assert(rows[1] == gap + package);
    assert(rows.skip(2) == after);
}

proof fn lemma_on_one_line(
    pad: Seq<char>,
    label: Seq<char>,
    gap: Seq<char>,
    package: Seq<char>,
    system: bool,
    after: Seq<Seq<char>>,
)
    requires
        is_blank(pad),
        is_blank(gap),
        gap.len() > 0,
        is_bare(label),
        label.len() > 0,
        is_package(package),
        after.len() > 0 ==> !is_package(trim(after[0])),
    ensures
        apps_in_lines(seq![pad + mark(system) + label + gap + package] + after) == seq![
            (package, label, system),
        ] + apps_in_lines(after),
{
    let rest = label + gap + package;
    let rows = seq![pad + mark(system) + label + gap + package] + after;
    lemma_package_is_ink(package);
    assert(rest[0] == label[0] && rest.last() == package.last());
    lemma_marked_row(pad, rest, system);
    lemma_last_word(label, gap, package, system);
    assert(rows[0] == pad + mark(system) + rest);
    assert(rows.skip(1) == after);
    assert(after.len() > 0 ==> rows[1] == after[0]);
}

/// A label, white space and a package on a line are read as they stand.
proof fn lemma_last_word(label: Seq<char>, gap: Seq<char>, package: Seq<char>, system: bool)
    requires
        is_blank(gap),
        gap.len() > 0,
        is_bare(label),
        is_package(package),
    ensures
        app_on_line(label + gap + package, system) == Some((package, label, system)),
{
    let none = Seq::<char>::empty();
    let rest = label + gap + package;
    let n = label.len() + gap.len();
    lemma_package_is_ink(package);
    assert forall|j: int| n <= j < rest.len() implies ink()(#[trigger] rest[j]) by {
        assert(rest[j] == package[j - n]);
    }
    assert(rest[n - 1] == gap.last());
    lemma_tail_run_is(rest, ink(), package.len() as int);
    assert(rest.skip(n as int) == package);
    assert(rest.take(n - 1) == none + label + gap.drop_last());
    law_trim_takes_white_space(none, label, gap.drop_last());
}

/// What follows a mark is read as it stands.
proof fn lemma_marked_row(pad: Seq<char>, rest: Seq<char>, system: bool)
    requires
        is_blank(pad),
        rest.len() > 0,
        !is_space(rest.last()),
    ensures
        marked(trim(pad + mark(system) + rest)) == Some((rest, system)),
{
    reveal_strlit("* ");
    reveal_strlit("- ");
    let none = Seq::<char>::empty();
    let line = mark(system) + rest;
    assert(line[0] == mark(system)[0] && line.last() == rest.last());
    law_trim_takes_white_space(pad, line, none);
    assert(pad + mark(system) + rest == pad + line + none);
    assert(line.take(2) == mark(system));
    assert(line.skip(2) == rest);
    lemma_marked(line, system);
}

proof fn lemma_package_is_ink(package: Seq<char>)
    requires
        is_package(package),
    ensures
        package.len() > 0,
        is_bare(package),
        forall|j: int| 0 <= j < package.len() ==> !is_space(#[trigger] package[j]),
{
    assert forall|j: int| 0 <= j < package.len() implies !is_space(#[trigger] package[j]) by {
        assert(is_package_char(package[j]));
    }
}

proof fn lemma_marked(line: Seq<char>, system: bool)
    requires
        line.len() >= 2,
        line.take(2) == mark(system),
    ensures
        marked(line) == Some((line.skip(2), system)),
{
    reveal_strlit("* ");
    reveal_strlit("- ");
    assert(line[0] == line.take(2)[0] && line[1] == line.take(2)[1]);
    if system {
        assert("* "@.is_prefix_of(line));
    } else {
        assert("- "@.is_prefix_of(line));
        assert(!"* "@.is_prefix_of(line)) by {
            if "* "@.is_prefix_of(line) {
                assert(line[0] == "* "@[0]);
            }
        }
    }
}

/// A package name is made of letters, digits, dots, underscores and hyphens, with
/// at least one dot.
pub proof fn law_the_shape_of_a_package(s: Seq<char>)
    ensures
        is_package(s) <==> {
            &&& exists|i: int| 0 <= i < s.len() && #[trigger] s[i] == '.'
            &&& forall|i: int|
                0 <= i < s.len() ==> {
                    let c = #[trigger] s[i];
                    ||| 'a' <= c <= 'z'
                    ||| 'A' <= c <= 'Z'
                    ||| '0' <= c <= '9'
                    ||| c == '.'
                    ||| c == '_'
                    ||| c == '-'
                }
        },
{
    if is_package(s) {
        assert forall|i: int| 0 <= i < s.len() implies {
            let c = #[trigger] s[i];
            ||| 'a' <= c <= 'z'
            ||| 'A' <= c <= 'Z'
            ||| '0' <= c <= '9'
            ||| c == '.'
            ||| c == '_'
            ||| c == '-'
        } by {
            assert(is_package_char(s[i]));
        }
    }
}

proof fn lemma_first_line(line: Seq<char>, rest: Seq<char>)
    requires
        !line.contains('\n'),
        line.len() == 0 || line.last() != '\r',
    ensures
        lines(line.push('\n') + rest) == seq![line] + lines(rest),
{
    law_a_line_ends_at_its_line_feed(line);
    law_lines_of_two_texts(line.push('\n'), rest);
}

/// A line without the mark of an app changes nothing: the apps are those of the
/// lines after it.
pub proof fn law_an_unmarked_line_changes_nothing(line: Seq<char>, rest: Seq<char>)
    requires
        !line.contains('\n'),
        line.len() == 0 || line.last() != '\r',
        !"* "@.is_prefix_of(trim(line)),
        !"- "@.is_prefix_of(trim(line)),
    ensures
        apps_in(line.push('\n') + rest) == apps_in(rest),
        apps_in(Seq::empty()) == Seq::<AppEntry>::empty(),
{
    lemma_first_line(line, rest);
    law_a_line_ends_at_its_line_feed(Seq::empty());
    let rows = seq![line] + lines(rest);
    assert(rows[0] == line);
    assert(rows.skip(1) == lines(rest));
}

/// Whether the first line of a text is a package alone.
pub open spec fn begins_with_a_package(text: Seq<char>) -> bool {
    lines(text).len() > 0 && is_package(trim(lines(text)[0]))
}

/// A marked line names an app: with its package behind the label, or alone on the
/// next line, and the lines after it are read as if they stood alone. Without a
/// package in either place it names none.
pub proof fn law_a_marked_line_names_an_app(
    pad: Seq<char>,
    system: bool,
    label: Seq<char>,
    gap: Seq<char>,
    package: Seq<char>,
    rest: Seq<char>,
)
    requires
        is_blank(pad),
        is_bare(label),
        label.len() > 0,
        is_blank(gap),
        is_package(package),
        !pad.contains('\n'),
        !label.contains('\n'),
        !gap.contains('\n'),
    ensures
        ({
            let marked = pad + (if system {
                "* "@
            } else {
                "- "@
            }) + label;
            &&& apps_in(marked.push('\n') + (gap + package).push('\n') + rest) == seq![
                (package, label, system),
            ] + apps_in(rest)
            &&& gap.len() > 0 && !begins_with_a_package(rest) ==> apps_in(
                (marked + gap + package).push('\n') + rest,
            ) == seq![(package, label, system)] + apps_in(rest)
            &&& !begins_with_a_package(rest) && (forall|i: int|
                0 < i <= label.len() && is_space(#[trigger] label[i - 1]) ==> !is_package(
                    label.skip(i),
                )) ==> apps_in(marked.push('\n') + rest) == apps_in(rest)
        }),
{
    reveal_strlit("* ");
    reveal_strlit("- ");
    lemma_package_is_ink(package);
    let first = pad + mark(system) + label;
    let second = gap + package;
    let whole = first + second;
    assert(first + gap + package == whole);
    assert(!package.contains('\n')) by {
        if package.contains('\n') {
            let i = choose|i: int| 0 <= i < package.len() && package[i] == '\n';
            assert(is_package_char(package[i]));
        }
    }
    lemma_no_line_feed(pad, mark(system));
    lemma_no_line_feed(pad + mark(system), label);
    lemma_no_line_feed(gap, package);
    lemma_no_line_feed(first, second);
    assert(first.last() == label.last());
    assert(second.last() == package.last());
    assert(whole.last() == package.last());
    // On two lines.
    assert(first.push('\n') + second.push('\n') + rest == first.push('\n') + (second.push('\n')
        + rest));
    lemma_first_line(first, second.push('\n') + rest);
    lemma_first_line(second, rest);
    assert(seq![first] + (seq![second] + lines(rest)) == seq![first, second] + lines(rest));
    lemma_wrapped(pad, label, gap, package, system, lines(rest));
    // On one line.
    if gap.len() > 0 && !begins_with_a_package(rest) {
        lemma_first_line(whole, rest);
        lemma_on_one_line(pad, label, gap, package, system, lines(rest));
        assert(pad + mark(system) + label + gap + package == whole);
    }
    // Without a package.
    if !begins_with_a_package(rest) && (forall|i: int|
        0 < i <= label.len() && is_space(#[trigger] label[i - 1]) ==> !is_package(label.skip(i))) {
        lemma_first_line(first, rest);
        lemma_marked_row(pad, label, system);
        lemma_tail_run(label, ink());
        let n = label.len() - tail_run(label, ink());
        if n > 0 {
            assert(is_space(label[n - 1]));
        }
        let rows = seq![first] + lines(rest);
        assert(rows[0] == first);
        assert(rows.skip(1) == lines(rest));
        assert(lines(rest).len() > 0 ==> rows[1] == lines(rest)[0]);
    }
}

proof fn lemma_no_line_feed(a: Seq<char>, b: Seq<char>)
    ensures
        (a + b).contains('\n') == (a.contains('\n') || b.contains('\n')),
{
    if (a + b).contains('\n') {
        let i = choose|i: int| 0 <= i < (a + b).len() && (a + b)[i] == '\n';
        if i < a.len() {
            assert(a[i] == '\n');
        } else {
            assert(b[i - a.len()] == '\n');
        }
    }
    if a.contains('\n') {
        let i = choose|i: int| 0 <= i < a.len() && a[i] == '\n';
        assert((a + b)[i] == '\n');
    }
    if b.contains('\n') {
        let i = choose|i: int| 0 <= i < b.len() && b[i] == '\n';
        assert((a + b)[a.len() + i] == '\n');
    }
}

/// Why a program gave no answer, and each error in words.
pub proof fn law_errors_say_what_happened(run: Run, msg: Seq<char>, err: IoErrorView)
    ensures
        run matches Run::NotRun(why) ==> not_ended(run) == (if why.not_found {
            AdbErrorView::Missing
        } else {
            AdbErrorView::Io(why@)
        }),
        run is TimedOut ==> not_ended(run) == AdbErrorView::TimedOut,
        AdbErrorView::Missing.message() == "adb no está instalado"@,
        AdbErrorView::TimedOut.message() == "adb no respondió a tiempo"@,
        AdbErrorView::Failed(msg).message() == "adb falló: "@ + msg,
        AdbErrorView::Io(err).message() == "no se pudo ejecutar adb: "@ + err.message,
{
}

/// Lists hold what their entries hold, one for one, and an error is told with all that
/// it carries.
pub proof fn law_lists_hold_their_entries(
    devices: Seq<Device>,
    apps: Seq<(String, String, bool)>,
    err: AdbError,
)
    ensures
        device_views(devices).len() == devices.len(),
        forall|i: int|
            0 <= i < devices.len() ==> #[trigger] device_views(devices)[i] == devices[i]@,
        app_entries(apps).len() == apps.len(),
        forall|i: int|
            0 <= i < apps.len() ==> #[trigger] app_entries(apps)[i] == (
                apps[i].0@,
                apps[i].1@,
                apps[i].2,
            ),
        err is Missing ==> err@ is Missing,
        err is TimedOut ==> err@ is TimedOut,
        err matches AdbError::Failed(msg) ==> err@ == AdbErrorView::Failed(msg@),
        err matches AdbError::Io(why) ==> err@ == AdbErrorView::Io(why@),
{
}

/// White space around the lines of a list of apps does not count, nor that at the end
/// of a line that describes a device.
pub proof fn law_white_space_around_lines_does_not_count(a: Seq<Seq<char>>, b: Seq<Seq<char>>)
    requires
        a.len() == b.len(),
        forall|i: int| 0 <= i < a.len() ==> trim(#[trigger] a[i]) == trim(b[i]),
    ensures
        apps_in_lines(a) == apps_in_lines(b),
        forall|x: Seq<char>, y: Seq<char>|
            trim_end(x) == trim_end(y) ==> #[trigger] device_in(x) == #[trigger] device_in(y),
    decreases a.len(),
{
    if a.len() > 0 {
        assert(trim(a[0]) == trim(b[0]));
        lemma_trims_skip(a, b, 1);
        law_white_space_around_lines_does_not_count(a.skip(1), b.skip(1));
        if a.len() > 1 {
            assert(trim(a[1]) == trim(b[1]));
            lemma_trims_skip(a, b, 2);
            law_white_space_around_lines_does_not_count(a.skip(2), b.skip(2));
        }
    }
}

proof fn lemma_trims_skip(a: Seq<Seq<char>>, b: Seq<Seq<char>>, n: int)
    requires
        a.len() == b.len(),
        0 <= n <= a.len(),
        forall|i: int| 0 <= i < a.len() ==> trim(#[trigger] a[i]) == trim(b[i]),
    ensures
        forall|i: int|
            0 <= i < a.skip(n).len() ==> trim(#[trigger] a.skip(n)[i]) == trim(b.skip(n)[i]),
{
    assert forall|i: int| 0 <= i < a.skip(n).len() implies trim(#[trigger] a.skip(n)[i]) == trim(
        b.skip(n)[i],
    ) by {
        assert(a.skip(n)[i] == a[i + n]);
    }
}

/// A label is what stands between the mark and the package, on one line or on two,
/// without the white space around it, and may be missing on one line; a package right
/// behind the mark is a label without a package, and such a label names no app.
pub proof fn law_a_label_stands_between_mark_and_package(
    pad: Seq<char>,
    system: bool,
    lead: Seq<char>,
    label: Seq<char>,
    gap: Seq<char>,
    package: Seq<char>,
    after: Seq<Seq<char>>,
)
    requires
        is_blank(pad),
        is_blank(lead),
        is_bare(label),
        is_blank(gap),
        is_package(package),
    ensures
        ({
            let marked = pad + (if system {
                "* "@
            } else {
                "- "@
            }) + lead + label;
            let goes_on = after.len() > 0 && is_package(trim(after[0]));
            let app = (package, label, system);
            &&& label.len() > 0 ==> apps_in_lines(seq![marked, gap + package] + after) == seq![app]
                + apps_in_lines(after)
            &&& !goes_on && (gap.len() > 0 || label.len() == 0 && lead.len() > 0) ==> apps_in_lines(
                seq![marked + gap + package] + after,
            ) == seq![app] + apps_in_lines(after)
            &&& !goes_on && label.len() == 0 && lead.len() == 0 && gap.len() == 0 ==> apps_in_lines(
                seq![marked + gap + package] + after,
            ) == apps_in_lines(after)
            &&& !goes_on && label.len() > 0 && (lead.len() > 0 ==> !is_package(label)) && (forall|
                i: int,
            |
                0 < i <= label.len() && is_space(#[trigger] label[i - 1]) ==> !is_package(
                    label.skip(i),
                )) ==> apps_in_lines(seq![marked] + after) == apps_in_lines(after)
        }),
{
    let none = Seq::<char>::empty();
    let first = pad + mark(system) + lead + label;
    lemma_package_is_ink(package);
    if label.len() > 0 {
        let rows = seq![first, gap + package] + after;
        assert(first == pad + mark(system) + (lead + label));
        lemma_marked_row(pad, lead + label, system);
        assert(lead + label == lead + label + none);
        law_trim_takes_white_space(lead, label, none);
        assert(gap + package == gap + package + none);
        law_trim_takes_white_space(gap, package, none);
        assert(rows[0] == first);
        assert(rows[1] == gap + package);
        assert(rows.skip(2) == after);
    }
    if label.len() > 0 && (lead.len() > 0 ==> !is_package(label)) && (forall|i: int|
        0 < i <= label.len() && is_space(#[trigger] label[i - 1]) ==> !is_package(label.skip(i))) {
        let rows = seq![first] + after;
        assert(first == pad + mark(system) + (lead + label));
        lemma_marked_row(pad, lead + label, system);
        lemma_no_app_without_a_package(lead, label, system);
        assert(rows[0] == first);
        assert(rows.skip(1) == after);
        assert(after.len() > 0 ==> rows[1] == after[0]);
    }
    let whole = first + gap + package;
    let rest = lead + label + gap + package;
    let rows = seq![whole] + after;
    assert(whole == pad + mark(system) + rest);
    assert(rest.last() == package.last());
    lemma_marked_row(pad, rest, system);
    assert(rows[0] == whole);
    assert(rows.skip(1) == after);
    assert(after.len() > 0 ==> rows[1] == after[0]);
    if gap.len() > 0 || label.len() == 0 && lead.len() > 0 {
        lemma_app_behind_white_space(lead, label, gap, package, system);
    } else if label.len() == 0 {
        assert(rest == package);
        assert forall|j: int| 0 <= j < rest.len() implies ink()(#[trigger] rest[j]) by {
            assert(rest[j] == package[j]);
        }
        lemma_tail_run_is(rest, ink(), rest.len() as int);
    }
}

proof fn lemma_no_app_without_a_package(lead: Seq<char>, label: Seq<char>, system: bool)
    requires
        is_blank(lead),
        label.len() > 0,
        lead.len() > 0 ==> !is_package(label),
        forall|i: int|
            0 < i <= label.len() && is_space(#[trigger] label[i - 1]) ==> !is_package(
                label.skip(i),
            ),
    ensures
        app_on_line(lead + label, system) is None,
{
    let rest = lead + label;
    let n = rest.len() - tail_run(rest, ink());
    lemma_tail_run(rest, ink());
    if n > 0 {
        assert(is_space(rest[n - 1]));
        if n > lead.len() {
            let i = n - lead.len();
            assert(rest[n - 1] == label[i - 1]);
            assert(rest.skip(n) == label.skip(i));
        } else if n == lead.len() {
            assert(rest.skip(n) == label);
        } else {
            assert(ink()(rest[n]));
            assert(rest[n] == lead[n]);
            assert(is_space(lead[n]));
        }
    }
}

proof fn lemma_app_behind_white_space(
    lead: Seq<char>,
    label: Seq<char>,
    gap: Seq<char>,
    package: Seq<char>,
    system: bool,
)
    requires
        is_blank(lead),
        is_bare(label),
        is_blank(gap),
        is_package(package),
        gap.len() > 0 || label.len() == 0 && lead.len() > 0,
    ensures
        app_on_line(lead + label + gap + package, system) == Some((package, label, system)),
{
    let none = Seq::<char>::empty();
    let rest = lead + label + gap + package;
    let before = lead + label + gap;
    let n = before.len() as int;
    lemma_package_is_ink(package);
    assert forall|j: int| n <= j < rest.len() implies ink()(#[trigger] rest[j]) by {
        assert(rest[j] == package[j - n]);
    }
    assert(rest[n - 1] == before[n - 1]);
    if gap.len() > 0 {
        assert(before[n - 1] == gap.last());
        assert(rest.take(n - 1) == lead + label + gap.drop_last());
        law_trim_takes_white_space(lead, label, gap.drop_last());
    } else {
        assert(before == lead);
        assert(rest.take(n - 1) == lead.drop_last() + label + none);
        law_trim_takes_white_space(lead.drop_last(), label, none);
    }
    lemma_tail_run_is(rest, ink(), package.len() as int);
    assert(rest.skip(n) == package);
}

} // verus!
