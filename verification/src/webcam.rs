//! The phone's camera as an ordinary webcam.
//!
//! scrcpy can already read a phone camera and write raw frames into a V4L2
//! device; this module is the part that decides: which device is the loopback,
//! what the phone's cameras can do, and that exactly one stream is alive.
//!
//! **The loopback device is found by name, not by number.** `/dev/video0` is
//! whatever the kernel probed first, and writing there would be writing over a
//! real device.
//!
//! **One stream at a time.** A V4L2 device accepts a single producer. Starting
//! a second phone would not add a camera, it would corrupt the first.

use vstd::prelude::*;
use vstd::slice::slice_subrange;

use crate::numerals::{
    all_digits, decimal, decimal_of, is_digit, is_numeral, law_decimal_is_plain,
    law_decimal_reads_back, number, number_of,
};
use crate::permiso::{puede_usar_la_camara, refusal, Reply};
use crate::process::{
    complaint_or_status, complaint_or_status_of, decoded, push_arg, push_arg_with, utf8_lossy, Call,
    CallView, ChildState, IoError, IoErrorView, Run,
};
use crate::protocol::{
    texts, Camera, CameraFacing, CameraView, WebcamState, WebcamStateView, WEBCAM_CARD_LABEL,
};
use crate::table::{
    comes_before, lemma_precedes_irreflexive, lemma_precedes_total, lemma_precedes_transitive,
    precedes,
};
use crate::text::{
    chars_of, equals, find, find_text, has_text, is_bare, is_blank, is_space,
    law_a_line_ends_at_its_line_feed, law_a_piece_ends_at_its_separator, law_lines_of_two_texts,
    law_text_is_found_where_it_occurs_first, law_trim_takes_white_space, law_trimmed_is_bare,
    lemma_filter_map_front, lemma_find_text, lemma_head_run, lemma_head_run_is, lines, lines_of,
    other_than, pieces, position, position_of, same, split, split_of, starts_with, string_of,
    strip_prefix, trim, trimmed,
};

verus! {

broadcast use vstd::string::group_string_axioms;

/// How many seconds a list of cameras is waited for. The phone queries every
/// sensor mode, and giving up shows up as a camera picker that never fills.
pub const LIST_TIMEOUT: u64 = 60;

/// Whether a text is a `WIDTHxHEIGHT` pair: a numeral on either side of its
/// first `x`.
pub open spec fn is_size_text(s: Seq<char>) -> bool {
    let n = find(s, 'x');
    n < s.len() && is_numeral(s.take(n)) && is_numeral(s.skip(n + 1))
}

fn size_shape(text: &[char]) -> (r: bool)
    ensures
        r == is_size_text(text@),
{
    let n = position(text, 'x');
    n < text.len() && all_digits(slice_subrange(text, 0, n)) && all_digits(
        slice_subrange(text, n + 1, text.len()),
    )
}

/// Whether a token is a `WIDTHxHEIGHT` pair.
///
/// Checked rather than assumed: the sizes feed straight into a scrcpy argument,
/// and a stray word would become an unparseable flag.
pub fn is_size(text: &str) -> (r: bool)
    ensures
        r == is_size_text(text@),
{
    let chars = chars_of(text);
    size_shape(chars.as_slice())
}

/// The numbers in a list of texts, without those that are none.
pub open spec fn rates_in(list: Seq<Seq<char>>) -> Seq<u32> {
    list.filter_map(
        |text: Seq<char>|
            match number(trim(text), u32::MAX as int) {
                Some(n) => Some(n as u32),
                None => None,
            },
    )
}

/// The frame rates that the details of a camera give, as in `fps={10, 15}`.
pub open spec fn fps_in(detail: Seq<char>) -> Seq<u32> {
    match find_text(detail, "fps={"@) {
        None => Seq::empty(),
        Some(at) => {
            let tail = detail.skip(at + "fps={"@.len());
            let n = find(tail, '}');
            if n < tail.len() {
                rates_in(split(tail.take(n), ','))
            } else {
                Seq::empty()
            }
        },
    }
}

/// The camera that a header describes by what follows `--camera-id=`: an id,
/// then its details in round brackets, which may be missing. There is no camera
/// without an id.
pub open spec fn camera_in(rest: Seq<char>) -> Option<CameraView> {
    let n = find(rest, '(');
    let id = trim(rest.take(n));
    let detail = if n < rest.len() {
        rest.skip(n + 1)
    } else {
        Seq::empty()
    };
    if id.len() == 0 {
        None
    } else {
        Some(
            CameraView {
                id,
                facing: CameraFacing::spelled(detail.take(find(detail, ','))),
                sizes: Seq::empty(),
                fps: fps_in(detail),
            },
        )
    }
}

/// What is known of the cameras once one more line is read.
///
/// A header adds a camera; a size belongs to the camera whose header came last;
/// any other line adds nothing.
pub open spec fn with_line(cameras: Seq<CameraView>, line: Seq<char>) -> Seq<CameraView> {
    let text = trim(line);
    if "--camera-id="@.is_prefix_of(text) {
        match camera_in(text.skip("--camera-id="@.len() as int)) {
            Some(camera) => cameras.push(camera),
            None => cameras,
        }
    } else if "- "@.is_prefix_of(text) && cameras.len() > 0 {
        let size = trim(text.skip("- "@.len() as int));
        if is_size_text(size) {
            let last = cameras.last();
            cameras.drop_last().push(CameraView { sizes: last.sizes.push(size), ..last })
        } else {
            cameras
        }
    } else {
        cameras
    }
}

/// The cameras that a list of lines describes.
pub open spec fn cameras_in_lines(rows: Seq<Seq<char>>) -> Seq<CameraView>
    decreases rows.len(),
{
    if rows.len() == 0 {
        Seq::empty()
    } else {
        with_line(cameras_in_lines(rows.drop_last()), rows.last())
    }
}

/// The cameras that `scrcpy --list-camera-sizes` describes, in its order.
pub open spec fn cameras_in(out: Seq<char>) -> Seq<CameraView> {
    cameras_in_lines(lines(out))
}

/// What a list of cameras holds.
pub open spec fn camera_views(v: Seq<Camera>) -> Seq<CameraView> {
    v.map_values(|c: Camera| c@)
}

fn parse_rates(list: &[char]) -> (r: Vec<u32>)
    ensures
        r@ == rates_in(split(list@, ',')),
{
    let parts = split_of(list, ',');
    let ghost spelled = split(list@, ',');
    let ghost read = |text: Seq<char>|
        match number(trim(text), u32::MAX as int) {
            Some(n) => Some(n as u32),
            None => None,
        };
    let mut r: Vec<u32> = Vec::new();
    assert(spelled.take(0) == Seq::<Seq<char>>::empty());
    for i in 0..parts.len()
        invariant
            pieces(parts@) == spelled,
            read == (|text: Seq<char>|
                match number(trim(text), u32::MAX as int) {
                    Some(n) => Some(n as u32),
                    None => None,
                }),
            r@ == spelled.take(i as int).filter_map(read),
    {
        assert(parts@[i as int]@ == spelled[i as int]);
        proof {
            spelled.lemma_filter_map_take_succ(read, i as int);
        }
        if let Some(n) = number_of(trimmed(parts[i]), u32::MAX) {
            r.push(n);
        }
    }
    assert(spelled.take(spelled.len() as int) == spelled);
    r
}

fn parse_fps(detail: &[char]) -> (r: Vec<u32>)
    ensures
        r@ == fps_in(detail@),
{
    match position_of(detail, "fps={") {
        None => Vec::new(),
        Some(at) => {
            let width = chars_of("fps={").len();
            let total = detail.len();
            let tail = slice_subrange(detail, at + width, total);
            let n = position(tail, '}');
            if n < tail.len() {
                parse_rates(slice_subrange(tail, 0, n))
            } else {
                Vec::new()
            }
        },
    }
}

fn parse_camera(rest: &[char]) -> (r: Option<Camera>)
    ensures
        match r {
            Some(camera) => camera_in(rest@) == Some(camera@),
            None => camera_in(rest@) is None,
        },
{
    let n = position(rest, '(');
    let id = trimmed(slice_subrange(rest, 0, n));
    if id.len() == 0 {
        return None;
    }
    let detail = if n < rest.len() {
        slice_subrange(rest, n + 1, rest.len())
    } else {
        slice_subrange(rest, n, n)
    };
    assert(detail@ == if n < rest@.len() {
        rest@.skip(n + 1)
    } else {
        Seq::empty()
    });
    let comma = position(detail, ',');
    let camera = Camera {
        id: string_of(id),
        facing: CameraFacing::parse_chars(slice_subrange(detail, 0, comma)),
        sizes: Vec::new(),
        fps: parse_fps(detail),
    };
    assert(camera@.sizes == Seq::<Seq<char>>::empty());
    Some(camera)
}

/// Parses the camera block of `scrcpy --list-camera-sizes`.
///
/// The output looks like this, and both halves matter: the header line has the
/// facing and the frame rates, the indented lines have the sizes.
///
/// ```text
///     --camera-id=0    (back, 4096x3072, fps={10, 15, 20, 30, 60}, zoom-range=[1, 8])
///         - 4096x3072
///         - 4096x2304
/// ```
///
/// Anything that does not match is skipped rather than treated as an error:
/// scrcpy prints its own banner and adb's push progress into the same stream.
pub fn parse_cameras(output: &str) -> (cameras: Vec<Camera>)
    ensures
        camera_views(cameras@) == cameras_in(output@),
{
    let chars = chars_of(output);
    let rows = lines_of(chars.as_slice());
    let ghost spelled = lines(output@);
    let mut cameras: Vec<Camera> = Vec::new();
    assert(spelled.take(0) == Seq::<Seq<char>>::empty());
    for i in 0..rows.len()
        invariant
            pieces(rows@) == spelled,
            camera_views(cameras@) == cameras_in_lines(spelled.take(i as int)),
    {
        let ghost before = camera_views(cameras@);
        assert(rows@[i as int]@ == spelled[i as int]);
        assert(spelled.take(i + 1).drop_last() == spelled.take(i as int));
        let text = trimmed(rows[i]);
        if let Some(rest) = strip_prefix(text, "--camera-id=") {
            if let Some(camera) = parse_camera(rest) {
                cameras.push(camera);
                assert(camera_views(cameras@) == before.push(camera@));
            }
        } else if let Some(rest) = strip_prefix(text, "- ") {
            // It belongs to the camera whose header came last.
            let size = trimmed(rest);
            if size_shape(size) {
                if let Some(mut camera) = cameras.pop() {
                    let ghost last = camera@;
                    camera.sizes.push(string_of(size));
                    assert(camera@.sizes == last.sizes.push(size@));
                    cameras.push(camera);
                    assert(camera_views(cameras@) == before.drop_last().push(camera@));
                }
            }
        }
        assert(camera_views(cameras@) == with_line(before, spelled[i as int]));
    }
    assert(spelled.take(spelled.len() as int) == spelled);
    cameras
}

#[derive(Debug)]
pub enum WebcamError {
    /// scrcpy is not installed.
    Missing,
    /// No v4l2loopback device with our label. The module is not loaded, or a
    /// kernel update replaced the running kernel's modules and nobody rebooted.
    NoLoopback,
    /// Already streaming, and a V4L2 device takes one producer.
    Busy,
    TimedOut,
    Failed(String),
    Io(IoError),
}

pub enum WebcamErrorView {
    Missing,
    NoLoopback,
    Busy,
    TimedOut,
    Failed(Seq<char>),
    Io(IoErrorView),
}

impl View for WebcamError {
    type V = WebcamErrorView;

    open spec fn view(&self) -> WebcamErrorView {
        match self {
            WebcamError::Missing => WebcamErrorView::Missing,
            WebcamError::NoLoopback => WebcamErrorView::NoLoopback,
            WebcamError::Busy => WebcamErrorView::Busy,
            WebcamError::TimedOut => WebcamErrorView::TimedOut,
            WebcamError::Failed(msg) => WebcamErrorView::Failed(msg@),
            WebcamError::Io(err) => WebcamErrorView::Io(err@),
        }
    }
}

impl WebcamErrorView {
    /// The error in words.
    pub open spec fn message(self) -> Seq<char> {
        match self {
            WebcamErrorView::Missing => "scrcpy no está instalado"@,
            WebcamErrorView::NoLoopback =>
            "no hay un dispositivo de bucle de vídeo: falta cargar el módulo v4l2loopback (si acabás de actualizar el kernel, reiniciá)"@,
            WebcamErrorView::Busy =>
            "la cámara ya está en uso: un dispositivo de vídeo admite una sola fuente"@,
            WebcamErrorView::TimedOut => "el teléfono no respondió a tiempo"@,
            WebcamErrorView::Failed(msg) => "scrcpy falló: "@ + msg,
            WebcamErrorView::Io(err) => "no se pudo ejecutar scrcpy: "@ + err.message,
        }
    }
}

impl WebcamError {
    /// The error in words.
    pub fn message(&self) -> (r: String)
        ensures
            r@ == self@.message(),
    {
        match self {
            WebcamError::Missing => "scrcpy no está instalado".to_owned(),
            WebcamError::NoLoopback =>
            "no hay un dispositivo de bucle de vídeo: falta cargar el módulo v4l2loopback (si acabás de actualizar el kernel, reiniciá)".to_owned(),
            WebcamError::Busy =>
            "la cámara ya está en uso: un dispositivo de vídeo admite una sola fuente".to_owned(),
            WebcamError::TimedOut => "el teléfono no respondió a tiempo".to_owned(),
            WebcamError::Failed(msg) => "scrcpy falló: ".to_owned().concat(msg.as_str()),
            WebcamError::Io(err) => "no se pudo ejecutar scrcpy: ".to_owned().concat(
                err.message.as_str(),
            ),
        }
    }
}

impl From<IoError> for WebcamError {
    fn from(err: IoError) -> (r: WebcamError) {
        if err.not_found {
            WebcamError::Missing
        } else {
            WebcamError::Io(err)
        }
    }
}

impl vstd::std_specs::convert::FromSpecImpl<IoError> for WebcamError {
    open spec fn obeys_from_spec() -> bool {
        true
    }

    open spec fn from_spec(err: IoError) -> WebcamError {
        if err.not_found {
            WebcamError::Missing
        } else {
            WebcamError::Io(err)
        }
    }
}

/// A video device that the kernel publishes, with the name of its card where
/// that can be read.
pub struct VideoDevice {
    pub name: String,
    pub label: Option<String>,
}

/// Whether a video device is the loopback that this service writes into. The
/// kernel ends the name of the card with a line feed, so white space around it
/// does not count.
pub open spec fn is_loopback(device: VideoDevice) -> bool {
    "video"@.is_prefix_of(device.name@) && match device.label {
        Some(label) => trim(label@) == WEBCAM_CARD_LABEL@,
        None => false,
    }
}

/// The path of a device by its name.
pub open spec fn device_path(name: Seq<char>) -> Seq<char> {
    "/dev/"@ + name
}

/// Whether a video device is the one to write into: a loopback, and the first
/// of them by name, so that a machine which ended up with two picks the same
/// one on every call.
pub open spec fn is_chosen(devices: Seq<VideoDevice>, i: int) -> bool {
    &&& 0 <= i < devices.len()
    &&& is_loopback(devices[i])
    &&& forall|j: int|
        0 <= j < devices.len() && is_loopback(#[trigger] devices[j]) ==> !precedes(
            devices[j].name@,
            devices[i].name@,
        )
}

fn looks_like_loopback(device: &VideoDevice) -> (r: bool)
    ensures
        r == is_loopback(*device),
{
    let name = chars_of(device.name.as_str());
    if !starts_with(name.as_slice(), "video") {
        return false;
    }
    match &device.label {
        Some(label) => {
            let chars = chars_of(label.as_str());
            equals(trimmed(chars.as_slice()), WEBCAM_CARD_LABEL)
        },
        None => false,
    }
}

/// The loopback device that this service writes into, or `None` if the module
/// is not loaded.
pub fn loopback_device(devices: &Vec<VideoDevice>) -> (r: Option<String>)
    ensures
        match r {
            Some(path) => exists|i: int| #[trigger]
                is_chosen(devices@, i) && path@ == device_path(devices@[i].name@),
            None => forall|i: int| 0 <= i < devices@.len() ==> !is_loopback(#[trigger] devices@[i]),
        },
{
    let mut best: Option<usize> = None;
    for i in 0..devices.len()
        invariant
            match best {
                Some(n) => n < i && is_chosen(devices@.take(i as int), n as int),
                None => forall|j: int| 0 <= j < i ==> !is_loopback(#[trigger] devices@[j]),
            },
    {
        let ghost head = devices@.take(i as int);
        let ghost more = devices@.take(i + 1);
        assert(forall|j: int| 0 <= j < i ==> #[trigger] more[j] == head[j]);
        assert(more[i as int] == devices@[i as int]);
        if looks_like_loopback(&devices[i]) {
            let first = match best {
                Some(n) => comes_before(devices[i].name.as_str(), devices[n].name.as_str()),
                None => true,
            };
            proof {
                let name = devices@[i as int].name@;
                lemma_precedes_irreflexive(name);
                if let Some(n) = best {
                    assert(head[n as int] == devices@[n as int]);
                    if first {
                        assert forall|j: int| 0 <= j < more.len() && is_loopback(
                            #[trigger] more[j],
                        ) implies !precedes(more[j].name@, name) by {
                            if j < i {
                                assert(is_loopback(head[j]));
                                if precedes(more[j].name@, name) {
                                    lemma_precedes_transitive(
                                        more[j].name@,
                                        name,
                                        head[n as int].name@,
                                    );
                                }
                            }
                        }
                    } else {
                        assert forall|j: int| 0 <= j < more.len() && is_loopback(
                            #[trigger] more[j],
                        ) implies !precedes(more[j].name@, head[n as int].name@) by {
                            if j < i {
                                assert(is_loopback(head[j]));
                            }
                        }
                    }
                } else {
                    assert(forall|j: int| 0 <= j < i ==> !is_loopback(#[trigger] devices@[j]));
                }
            }
            if first {
                best = Some(i);
            }
        } else {
            proof {
                if let Some(n) = best {
                    assert forall|j: int| 0 <= j < more.len() && is_loopback(
                        #[trigger] more[j],
                    ) implies !precedes(more[j].name@, more[n as int].name@) by {
                        assert(is_loopback(head[j]));
                    }
                }
            }
        }
    }
    match best {
        Some(n) => {
            assert(devices@.take(devices@.len() as int) == devices@);
            assert(is_chosen(devices@, n as int));
            Some("/dev/".to_owned().concat(devices[n].name.as_str()))
        },
        None => None,
    }
}

/// The cameras that `scrcpy --list-camera-sizes` reported, given what it printed.
pub fn cameras_reported(success: bool, status: &str, stdout: &str, stderr: &str) -> (r: Result<
    Vec<Camera>,
    WebcamError,
>)
    ensures
        match r {
            Ok(cameras) => success && camera_views(cameras@) == cameras_in(stdout@),
            Err(err) => !success && err@ == WebcamErrorView::Failed(
                complaint_or_status(stderr@, status@),
            ),
        },
{
    if !success {
        return Err(WebcamError::Failed(complaint_or_status_of(stderr, status)));
    }
    // scrcpy prints the camera list on stdout; the server's own log lines land
    // there too, which is why the parser ignores what it does not recognise.
    Ok(parse_cameras(stdout))
}

/// How a phone is asked what its cameras are.
pub fn list_cameras_call(serial: &str) -> (r: Call)
    ensures
        r@ == (CallView {
            program: "scrcpy"@,
            args: seq!["-s"@, serial@, "--list-camera-sizes"@],
            limit: 60,
        }),
{
    let mut args: Vec<String> = Vec::new();
    push_arg(&mut args, "-s");
    push_arg(&mut args, serial);
    push_arg(&mut args, "--list-camera-sizes");
    let r = Call { program: "scrcpy".to_owned(), args, limit: LIST_TIMEOUT };
    assert(r@.args == seq!["-s"@, serial@, "--list-camera-sizes"@]);
    r
}

/// The cameras that a run of `scrcpy --list-camera-sizes` reported.
pub fn list_cameras(run: Run) -> (r: Result<Vec<Camera>, WebcamError>)
    ensures
        match (run, r) {
            (Run::Ended(output), Ok(cameras)) => output.success && camera_views(cameras@)
                == cameras_in(utf8_lossy(output.stdout@)),
            (Run::Ended(output), Err(err)) => !output.success && err@ == WebcamErrorView::Failed(
                complaint_or_status(utf8_lossy(output.stderr@), output.status@),
            ),
            (Run::TimedOut, Err(err)) => err@ == WebcamErrorView::TimedOut,
            (Run::NotRun(why), Err(err)) => err@ == if why.not_found {
                WebcamErrorView::Missing
            } else {
                WebcamErrorView::Io(why@)
            },
            (_, Ok(_)) => false,
        },
{
    match run {
        Run::NotRun(err) => Err(WebcamError::from(err)),
        Run::TimedOut => Err(WebcamError::TimedOut),
        Run::Ended(output) => {
            let stdout = decoded(output.stdout.as_slice());
            let stderr = decoded(output.stderr.as_slice());
            cameras_reported(
                output.success,
                output.status.as_str(),
                stdout.as_str(),
                stderr.as_str(),
            )
        },
    }
}

/// The arguments with which scrcpy writes a camera into a device.
///
/// No window and no playback: this is a pipe into a device node. No audio:
/// requesting it makes the whole session fail on devices that cannot provide it
/// alongside the camera. No buffer: a webcam is watched live, so latency is the
/// thing that matters. A size or a frame rate that is not asked for is the
/// phone's choice.
pub open spec fn stream_args(
    serial: Seq<char>,
    camera_id: Seq<char>,
    device: Seq<char>,
    size: Seq<char>,
    fps: nat,
) -> Seq<Seq<char>> {
    seq![
        "-s"@,
        serial,
        "--video-source=camera"@,
        "--camera-id="@ + camera_id,
        "--v4l2-sink="@ + device,
        "--no-window"@,
        "--no-video-playback"@,
        "--no-audio"@,
        "--v4l2-buffer=0"@,
    ] + (if size.len() > 0 {
        seq!["--camera-size="@ + size]
    } else {
        Seq::empty()
    }) + (if fps > 0 {
        seq!["--camera-fps="@ + decimal(fps)]
    } else {
        Seq::empty()
    })
}

/// What it takes to start a stream.
pub struct StreamPlan {
    /// The device that the camera is written into.
    pub device: String,
    /// The arguments for scrcpy.
    pub args: Vec<String>,
}

/// A camera that is being written into the loopback device. `C` is the handle of
/// the process that does it.
struct Running<C> {
    serial: String,
    camera_id: String,
    size: String,
    child: C,
}

/// A stream: which camera of which phone, in which size, by which process.
pub struct Stream<C> {
    pub serial: Seq<char>,
    pub camera_id: Seq<char>,
    pub size: Seq<char>,
    pub child: C,
}

/// The single camera stream, if there is one.
pub struct WebcamBridge<C> {
    running: Option<Running<C>>,
}

impl<C> View for WebcamBridge<C> {
    type V = Option<Stream<C>>;

    closed spec fn view(&self) -> Option<Stream<C>> {
        match self.running {
            Some(running) => Some(
                Stream {
                    serial: running.serial@,
                    camera_id: running.camera_id@,
                    size: running.size@,
                    child: running.child,
                },
            ),
            None => None,
        }
    }
}

impl<C> WebcamBridge<C> {
    /// Nothing is streaming.
    pub fn new() -> (r: WebcamBridge<C>)
        ensures
            r@ is None,
    {
        WebcamBridge { running: None }
    }

    /// What to report over D-Bus, given the loopback device.
    ///
    /// Its path is filled in even when nothing is streaming, so a settings
    /// screen can grey the control out and explain why.
    pub fn state(&self, loopback: Option<String>) -> (r: WebcamState)
        ensures
            r@.device == match loopback {
                Some(path) => path@,
                None => Seq::empty(),
            },
            match self@ {
                Some(stream) => r@ == (WebcamStateView {
                    active: true,
                    device: r@.device,
                    serial: stream.serial,
                    camera_id: stream.camera_id,
                    size: stream.size,
                }),
                None => r@ == (WebcamStateView {
                    active: false,
                    device: r@.device,
                    serial: Seq::empty(),
                    camera_id: Seq::empty(),
                    size: Seq::empty(),
                }),
            },
    {
        let device = match loopback {
            Some(path) => path,
            None => String::new(),
        };
        match &self.running {
            Some(running) => WebcamState {
                active: true,
                device,
                serial: running.serial.clone(),
                camera_id: running.camera_id.clone(),
                size: running.size.clone(),
            },
            None => WebcamState {
                active: false,
                device,
                serial: String::new(),
                camera_id: String::new(),
                size: String::new(),
            },
        }
    }

    /// Which phone is feeding the bridge, if any.
    pub fn serial(&self) -> (r: Option<&str>)
        ensures
            match r {
                Some(serial) => self@ is Some && serial@ == self@->0.serial,
                None => self@ is None,
            },
    {
        match &self.running {
            Some(running) => Some(running.serial.as_str()),
            None => None,
        }
    }

    /// What it takes to start writing a phone camera into the loopback device.
    ///
    /// `size` may be empty, in which case the phone picks. Passing a size the
    /// sensor does not support is the usual way this fails, so callers should
    /// take it from the list of cameras.
    pub fn start(
        &self,
        loopback: Option<String>,
        serial: &str,
        camera_id: &str,
        size: &str,
        fps: u32,
    ) -> (r: Result<StreamPlan, WebcamError>)
        ensures
            match r {
                Ok(plan) => self@ is None && loopback is Some && plan.device@ == loopback->0@
                    && texts(plan.args@) == stream_args(
                    serial@,
                    camera_id@,
                    loopback->0@,
                    size@,
                    fps as nat,
                ),
                Err(err) => err@ == (if self@ is Some {
                    WebcamErrorView::Busy
                } else {
                    WebcamErrorView::NoLoopback
                }) && (self@ is Some || loopback is None),
            },
    {
        if self.running.is_some() {
            return Err(WebcamError::Busy);
        }
        let device = match loopback {
            Some(path) => path,
            None => {
                return Err(WebcamError::NoLoopback);
            },
        };
        let mut args: Vec<String> = Vec::new();
        push_arg(&mut args, "-s");
        push_arg(&mut args, serial);
        push_arg(&mut args, "--video-source=camera");
        push_arg_with(&mut args, "--camera-id=", camera_id);
        push_arg_with(&mut args, "--v4l2-sink=", device.as_str());
        push_arg(&mut args, "--no-window");
        push_arg(&mut args, "--no-video-playback");
        push_arg(&mut args, "--no-audio");
        push_arg(&mut args, "--v4l2-buffer=0");
        if !size.is_empty() {
            push_arg_with(&mut args, "--camera-size=", size);
        }
        if fps > 0 {
            push_arg_with(&mut args, "--camera-fps=", decimal_of(fps as u64).as_str());
        }
        assert(texts(args@) == stream_args(serial@, camera_id@, device@, size@, fps as nat));
        Ok(StreamPlan { device, args })
    }

    /// What it takes to start writing a phone camera into the loopback device, once
    /// the permission was asked for: nothing but a yes gives a plan.
    pub fn start_if_allowed(
        &self,
        reply: Reply,
        loopback: Option<String>,
        serial: &str,
        camera_id: &str,
        size: &str,
        fps: u32,
    ) -> (r: Result<StreamPlan, String>)
        ensures
            match r {
                Ok(plan) => {
                    &&& refusal(reply) is None
                    &&& self@ is None
                    &&& loopback is Some
                    &&& plan.device@ == loopback->0@
                    &&& texts(plan.args@) == stream_args(
                        serial@,
                        camera_id@,
                        loopback->0@,
                        size@,
                        fps as nat,
                    )
                },
                Err(message) => match refusal(reply) {
                    Some(why) => message@ == why,
                    None => if self@ is Some {
                        message@ == WebcamErrorView::Busy.message()
                    } else {
                        loopback is None && message@ == WebcamErrorView::NoLoopback.message()
                    },
                },
            },
    {
        match puede_usar_la_camara(reply) {
            Ok(_) => {},
            Err(why) => {
                return Err(why);
            },
        }
        match self.start(loopback, serial, camera_id, size, fps) {
            Ok(plan) => Ok(plan),
            Err(err) => Err(err.message()),
        }
    }

    /// Records the stream once its process was started.
    pub fn started(&mut self, serial: &str, camera_id: &str, size: &str, child: C)
        requires
            old(self)@ is None,
        ensures
            final(self)@ == Some(
                Stream { serial: serial@, camera_id: camera_id@, size: size@, child },
            ),
    {
        self.running = Some(
            Running {
                serial: serial.to_owned(),
                camera_id: camera_id.to_owned(),
                size: size.to_owned(),
                child,
            },
        );
    }

    /// Stops the stream: hands out its process, if there was one, so that it can
    /// be killed.
    pub fn stop(&mut self) -> (r: Option<C>)
        ensures
            final(self)@ is None,
            r == match old(self)@ {
                Some(stream) => Some(stream.child),
                None => None,
            },
    {
        match self.running.take() {
            Some(running) => Some(running.child),
            None => None,
        }
    }

    /// Stops the stream if it belongs to this device.
    ///
    /// Called when a phone goes away: the loopback device would otherwise keep a
    /// dead producer attached, and the next start would be refused as busy.
    pub fn stop_if_device(&mut self, serial: &str) -> (r: Option<C>)
        ensures
            match old(self)@ {
                Some(stream) if stream.serial == serial@ => final(self)@ is None && r == Some(
                    stream.child,
                ),
                _ => final(self)@ == old(self)@ && r is None,
            },
    {
        let mine = match self.serial() {
            Some(current) => same(current, serial),
            None => false,
        };
        if mine {
            self.stop()
        } else {
            None
        }
    }

    /// The handle of the process that feeds the bridge, to ask after it.
    pub fn child_mut(&mut self) -> (r: Option<&mut C>)
        ensures
            match (old(self)@, r) {
                (Some(stream), Some(child)) => *child == stream.child && final(self)@ == Some(
                    Stream { child: *final(child), ..stream },
                ),
                (None, None) => final(self)@ == old(self)@,
                _ => false,
            },
    {
        match &mut self.running {
            Some(running) => Some(&mut running.child),
            None => None,
        }
    }

    /// Notices a stream that ended on its own, given what a look at its process
    /// found. Returns whether one was collected. A process that cannot be asked
    /// is given up.
    ///
    /// The common cause is the phone locking or another app grabbing the camera,
    /// and without this the bridge would report itself busy forever.
    pub fn reap(&mut self, state: ChildState) -> (r: bool)
        ensures
            r == (old(self)@ is Some && state != ChildState::Running),
            r ==> final(self)@ is None,
            !r ==> final(self)@ == old(self)@,
    {
        if self.running.is_none() || state == ChildState::Running {
            return false;
        }
        self.running = None;
        true
    }
}

/// Every camera that is read has an id without white space around it, and every
/// size that is read is one: nothing else can become an argument for scrcpy.
pub proof fn law_cameras_are_usable(rows: Seq<Seq<char>>)
    ensures
        forall|i: int|
            0 <= i < cameras_in_lines(rows).len() ==> {
                let camera = #[trigger] cameras_in_lines(rows)[i];
                &&& camera.id.len() > 0
                &&& is_bare(camera.id)
                &&& forall|j: int|
                    0 <= j < camera.sizes.len() ==> is_size_text(#[trigger] camera.sizes[j])
            },
    decreases rows.len(),
{
    if rows.len() > 0 {
        law_cameras_are_usable(rows.drop_last());
        let before = cameras_in_lines(rows.drop_last());
        let after = cameras_in_lines(rows);
        let text = trim(rows.last());
        if "--camera-id="@.is_prefix_of(text) {
            let rest = text.skip("--camera-id="@.len() as int);
            law_trimmed_is_bare(rest.take(find(rest, '(')));
        }
        assert forall|i: int| 0 <= i < after.len() implies {
            let camera = #[trigger] after[i];
            &&& camera.id.len() > 0
            &&& is_bare(camera.id)
            &&& forall|j: int|
                0 <= j < camera.sizes.len() ==> is_size_text(#[trigger] camera.sizes[j])
        } by {
            if i < before.len() {
                let camera = before[i];
                assert(after[i].id == camera.id);
                assert forall|j: int| 0 <= j < after[i].sizes.len() implies is_size_text(
                    #[trigger] after[i].sizes[j],
                ) by {
                    if j < camera.sizes.len() {
                        assert(after[i].sizes[j] == camera.sizes[j]);
                    }
                }
            }
        }
    }
}

/// Only a header makes a camera: lines without one give none, and a further line
/// takes none away.
pub proof fn law_only_headers_make_cameras(rows: Seq<Seq<char>>)
    ensures
        (forall|i: int|
            0 <= i < rows.len() ==> !"--camera-id="@.is_prefix_of(trim(#[trigger] rows[i])))
            ==> cameras_in_lines(rows).len() == 0,
        forall|n: int|
            0 <= n <= rows.len() ==> (#[trigger] cameras_in_lines(rows.take(n))).len()
                <= cameras_in_lines(rows).len(),
    decreases rows.len(),
{
    assert(rows.take(rows.len() as int) == rows);
    if rows.len() > 0 {
        let rest = rows.drop_last();
        law_only_headers_make_cameras(rest);
        if forall|i: int|
            0 <= i < rows.len() ==> !"--camera-id="@.is_prefix_of(trim(#[trigger] rows[i])) {
            assert forall|i: int| 0 <= i < rest.len() implies !"--camera-id="@.is_prefix_of(
                trim(#[trigger] rest[i]),
            ) by {
                assert(rest[i] == rows[i]);
            }
            assert(!"--camera-id="@.is_prefix_of(trim(rows[rows.len() - 1])));
        }
        assert forall|n: int| 0 <= n <= rows.len() implies (#[trigger] cameras_in_lines(
            rows.take(n),
        )).len() <= cameras_in_lines(rows).len() by {
            if n < rows.len() {
                assert(rest.take(n) == rows.take(n));
                assert(cameras_in_lines(rest.take(n)).len() <= cameras_in_lines(rest).len());
            }
        }
    }
}

/// The camera that a line starts, if it is a header with an id.
pub open spec fn header_in(line: Seq<char>) -> Option<CameraView> {
    let text = trim(line);
    if "--camera-id="@.is_prefix_of(text) {
        camera_in(text.skip("--camera-id="@.len() as int))
    } else {
        None
    }
}

/// The size that a line names, if it names one.
pub open spec fn size_in(line: Seq<char>) -> Option<Seq<char>> {
    let text = trim(line);
    let size = trim(text.skip("- "@.len() as int));
    if !"--camera-id="@.is_prefix_of(text) && "- "@.is_prefix_of(text) && is_size_text(size) {
        Some(size)
    } else {
        None
    }
}

/// A header starts a new camera, without sizes yet, and leaves the others alone.
pub proof fn law_a_header_starts_a_camera(rows: Seq<Seq<char>>, line: Seq<char>)
    requires
        header_in(line) is Some,
    ensures
        cameras_in_lines(rows.push(line)) == cameras_in_lines(rows).push(header_in(line)->0),
        header_in(line)->0.sizes.len() == 0,
{
    assert(rows.push(line).drop_last() == rows);
}

/// A size goes to the camera whose header came last, behind the sizes it has, and
/// changes nothing else; before any header it goes nowhere.
pub proof fn law_a_size_goes_to_the_last_camera(rows: Seq<Seq<char>>, line: Seq<char>)
    requires
        size_in(line) is Some,
    ensures
        ({
            let before = cameras_in_lines(rows);
            cameras_in_lines(rows.push(line)) == if before.len() == 0 {
                before
            } else {
                before.update(
                    before.len() - 1,
                    CameraView { sizes: before.last().sizes.push(size_in(line)->0), ..before.last() },
                )
            }
        }),
{
    assert(rows.push(line).drop_last() == rows);
}

/// A line that is neither a header nor a size changes no camera.
pub proof fn law_other_lines_change_no_camera(rows: Seq<Seq<char>>, line: Seq<char>)
    requires
        header_in(line) is None,
        size_in(line) is None,
    ensures
        cameras_in_lines(rows.push(line)) == cameras_in_lines(rows),
{
    assert(rows.push(line).drop_last() == rows);
}

/// Rates in decimal, joined by a comma and a blank.
pub open spec fn joined_rates(rates: Seq<u32>) -> Seq<char>
    decreases rates.len(),
{
    if rates.len() == 0 {
        Seq::empty()
    } else if rates.len() == 1 {
        decimal(rates[0] as nat)
    } else {
        decimal(rates[0] as nat) + seq![',', ' '] + joined_rates(rates.skip(1))
    }
}

/// Rates that are spelled are read back.
proof fn lemma_rates_read_back(pad: Seq<char>, rates: Seq<u32>)
    requires
        rates.len() > 0,
        is_blank(pad),
        !pad.contains(','),
    ensures
        rates_in(split(pad + joined_rates(rates), ',')) == rates,
    decreases rates.len(),
{
    let first = pad + decimal(rates[0] as nat);
    let read = |text: Seq<char>|
        match number(trim(text), u32::MAX as int) {
            Some(n) => Some(n as u32),
            None => None,
        };
    let none = Seq::<char>::empty();
    law_decimal_is_plain(rates[0] as nat, u32::MAX as int);
    law_decimal_reads_back(rates[0] as nat, u32::MAX as int);
    let digits = decimal(rates[0] as nat);
    assert(is_bare(digits)) by {
        assert('0' <= digits[0] <= '9');
        assert('0' <= digits[digits.len() - 1] <= '9');
    }
    assert(first == pad + digits + none);
    law_trim_takes_white_space(pad, digits, none);
    assert(!first.contains(',')) by {
        if first.contains(',') {
            let i = choose|i: int| 0 <= i < first.len() && first[i] == ',';
            if i < pad.len() {
                assert(pad[i] == ',');
            } else {
                assert('0' <= digits[i - pad.len()] <= '9');
            }
        }
    }
    assert(read(first) == Some(rates[0]));
    if rates.len() == 1 {
        law_a_piece_ends_at_its_separator(first, ',', none);
        Seq::lemma_filter_map_singleton(first, read);
        assert(rates == seq![rates[0]]);
    } else {
        let rest = rates.skip(1);
        let blank = seq![' '];
        let more = blank + joined_rates(rest);
        assert(!blank.contains(',')) by {
            if blank.contains(',') {
                let i = choose|i: int| 0 <= i < blank.len() && blank[i] == ',';
                assert(blank[i] == ' ');
            }
        }
        lemma_rates_read_back(blank, rest);
        assert(pad + joined_rates(rates) == first.push(',') + more);
        law_a_piece_ends_at_its_separator(first, ',', more);
        lemma_filter_map_front(first, split(more, ','), read);
        assert(rates == seq![rates[0]] + rest);
    }
}

/// `fps={` is found where it was put, if it does not occur before.
proof fn lemma_rates_found(before: Seq<char>, after: Seq<char>)
    requires
        !has_text(before, "fps={"@),
    ensures
        find_text(before + "fps={"@ + after, "fps={"@) == Some(before.len() as int),
{
    reveal_strlit("fps={");
    let part = "fps={"@;
    let s = before + part + after;
    let n = before.len() as int;
    assert(s.subrange(n, n + part.len()) == part);
    assert forall|j: int| 0 <= j < n implies #[trigger] s.subrange(j, j + part.len()) != part by {
        let here = s.subrange(j, j + part.len());
        if here == part {
            if j + part.len() <= n {
                assert(before.subrange(j, j + part.len()) == here);
                assert(has_text(before, part));
            } else {
                assert(here[n - j] == s[n]);
                assert(s[n] == part[0]);
                assert(part[n - j] != 'f');
            }
        }
    }
    law_text_is_found_where_it_occurs_first(s, part, n);
}

/// The way a camera looks by scrcpy's word for it.
pub open spec fn facing_by_word(word: Seq<char>) -> CameraFacing {
    if word == "front"@ {
        CameraFacing::Front
    } else if word == "back"@ {
        CameraFacing::Back
    } else {
        CameraFacing::External
    }
}

/// A header line as scrcpy spells it, up to the details in its brackets.
pub open spec fn header_line(
    pad: Seq<char>,
    id: Seq<char>,
    gap: Seq<char>,
    detail: Seq<char>,
) -> Seq<char> {
    pad + "--camera-id="@ + id + gap + "("@ + detail
}

/// A text that ends a line is read apart from the line that follows it.
proof fn lemma_one_more_line(text: Seq<char>, line: Seq<char>)
    requires
        text.len() > 0 ==> text.last() == '\n',
        !line.contains('\n'),
        line.len() == 0 || line.last() != '\r',
    ensures
        lines(text + line.push('\n')) == lines(text).push(line),
{
    law_lines_of_two_texts(text, line.push('\n'));
    law_a_line_ends_at_its_line_feed(line);
    assert(lines(text) + seq![line] == lines(text).push(line));
}

/// What is read goes by the lines alone, however they end.
pub proof fn law_cameras_are_read_line_by_line(a: Seq<char>, b: Seq<char>)
    requires
        lines(a) == lines(b),
    ensures
        cameras_in(a) == cameras_in(b),
{
}

/// A header is read by what follows its mark.
proof fn lemma_header_line_read(text: Seq<char>, pad: Seq<char>, rest: Seq<char>)
    requires
        text.len() > 0 ==> text.last() == '\n',
        is_blank(pad),
        rest.len() > 0,
        !is_space(rest.last()),
        !(pad + "--camera-id="@ + rest).contains('\n'),
        camera_in(rest) is Some,
    ensures
        cameras_in(text + (pad + "--camera-id="@ + rest).push('\n')) == cameras_in(text).push(
            camera_in(rest)->0,
        ),
{
    reveal_strlit("--camera-id=");
    let none = Seq::<char>::empty();
    let bare = "--camera-id="@ + rest;
    let line = pad + "--camera-id="@ + rest;
    assert(line.last() == rest.last());
    lemma_one_more_line(text, line);
    assert(line == pad + bare + none);
    assert(bare[0] == '-' && bare.last() == rest.last());
    law_trim_takes_white_space(pad, bare, none);
    assert("--camera-id="@.is_prefix_of(bare));
    assert(bare.skip("--camera-id="@.len() as int) == rest);
    let rows = lines(text).push(line);
    assert(rows.drop_last() == lines(text));
}

/// The id stands before the first bracket, and the details behind it.
proof fn lemma_bracket_found(id: Seq<char>, gap: Seq<char>, detail: Seq<char>)
    requires
        is_bare(id),
        is_blank(gap),
        !id.contains('('),
    ensures
        ({
            let rest = id + gap + "("@ + detail;
            let n = find(rest, '(');
            &&& 0 <= n < rest.len()
            &&& trim(rest.take(n)) == id
            &&& rest.skip(n + 1) == detail
        }),
{
    reveal_strlit("(");
    let none = Seq::<char>::empty();
    let rest = id + gap + "("@ + detail;
    let n = (id + gap).len() as int;
    assert forall|j: int| 0 <= j < n implies other_than('(')(#[trigger] rest[j]) by {
        if j < id.len() {
            assert(rest[j] == id[j]);
            if id[j] == '(' {
                assert(id.contains('('));
            }
        } else {
            assert(rest[j] == gap[j - id.len()]);
            assert(is_space(gap[j - id.len()]));
        }
    }
    assert(rest[n] == '(');
    lemma_head_run_is(rest, other_than('('), n);
    assert(rest.take(n) == none + id + gap);
    law_trim_takes_white_space(none, id, gap);
    assert(rest.skip(n + 1) == detail);
}

/// The facing stands before the first comma.
proof fn lemma_facing_found(word: Seq<char>, more: Seq<char>)
    requires
        is_bare(word),
        !word.contains(','),
        more.len() > 0 ==> more[0] == ',',
    ensures
        ({
            let detail = word + more;
            CameraFacing::spelled(detail.take(find(detail, ','))) == facing_by_word(word)
        }),
{
    let none = Seq::<char>::empty();
    let detail = word + more;
    let m = word.len() as int;
    assert forall|j: int| 0 <= j < m implies other_than(',')(#[trigger] detail[j]) by {
        assert(detail[j] == word[j]);
        if word[j] == ',' {
            assert(word.contains(','));
        }
    }
    if more.len() > 0 {
        assert(detail[m] == ',');
    }
    lemma_head_run_is(detail, other_than(','), m);
    assert(detail.take(m) == none + word + none);
    law_trim_takes_white_space(none, word, none);
}

/// A header makes one more camera, whatever stands before it: with the id that is
/// spelled before the bracket, the facing that the first of the details names, and,
/// where no rates are given, none.
pub proof fn law_a_header_is_read_as_it_stands(
    text: Seq<char>,
    pad: Seq<char>,
    id: Seq<char>,
    gap: Seq<char>,
    word: Seq<char>,
    more: Seq<char>,
)
    requires
        text.len() > 0 ==> text.last() == '\n',
        is_blank(pad),
        id.len() > 0,
        is_bare(id),
        is_blank(gap),
        !id.contains('('),
        is_bare(word),
        !word.contains(','),
        more.len() > 0 ==> more[0] == ',' && !is_space(more.last()),
        !header_line(pad, id, gap, word + more).contains('\n'),
    ensures
        ({
            let cameras = cameras_in(
                text + header_line(pad, id, gap, word + more).push('\n'),
            );
            &&& cameras.len() == cameras_in(text).len() + 1
            &&& cameras.drop_last() == cameras_in(text)
            &&& cameras.last().id == id
            &&& cameras.last().facing == facing_by_word(word)
            &&& cameras.last().sizes.len() == 0
            &&& !has_text(word + more, "fps={"@) ==> cameras.last().fps.len() == 0
            &&& cameras.last().fps == fps_in(word + more)
        }),
{
    reveal_strlit("(");
    let detail = word + more;
    let rest = id + gap + "("@ + detail;
    if more.len() > 0 {
        assert(rest.last() == more.last());
    } else if word.len() > 0 {
        assert(rest.last() == word.last());
    } else {
        assert(rest.last() == '(');
    }
    lemma_bracket_found(id, gap, detail);
    lemma_facing_found(word, more);
    assert(header_line(pad, id, gap, detail) == pad + "--camera-id="@ + rest);
    lemma_header_line_read(text, pad, rest);
    if !has_text(detail, "fps={"@) {
        lemma_find_text(detail, "fps={"@);
    }
    assert(cameras_in(text).push(camera_in(rest)->0).drop_last() == cameras_in(text));
}

/// A header spelled from its parts is read back as those parts: the id, the facing
/// and all of the rates, one or many.
pub proof fn law_a_header_with_rates_is_read_back(
    text: Seq<char>,
    pad: Seq<char>,
    id: Seq<char>,
    gap: Seq<char>,
    word: Seq<char>,
    details: Seq<char>,
    rates: Seq<u32>,
    rest: Seq<char>,
)
    requires
        text.len() > 0 ==> text.last() == '\n',
        is_blank(pad),
        id.len() > 0,
        is_bare(id),
        is_blank(gap),
        !id.contains('('),
        is_bare(word),
        word.len() > 0,
        !word.contains(','),
        !has_text(word + seq![',', ' '] + details, "fps={"@),
        rates.len() > 0,
        ({
            let detail = word + seq![',', ' '] + details + "fps={"@ + joined_rates(rates) + seq!['}']
                + rest + seq![')'];
            !header_line(pad, id, gap, detail).contains('\n')
        }),
    ensures
        ({
            let detail = word + seq![',', ' '] + details + "fps={"@ + joined_rates(rates) + seq!['}']
                + rest + seq![')'];
            cameras_in(text + header_line(pad, id, gap, detail).push('\n')) == cameras_in(
                text,
            ).push(
                CameraView { id, facing: facing_by_word(word), sizes: Seq::empty(), fps: rates },
            )
        }),
{
    reveal_strlit("fps={");
    let joined = joined_rates(rates);
    let before = word + seq![',', ' '] + details;
    let after = joined + seq!['}'] + rest + seq![')'];
    let detail = before + "fps={"@ + joined + seq!['}'] + rest + seq![')'];
    let more = seq![',', ' '] + details + "fps={"@ + joined + seq!['}'] + rest + seq![')'];
    assert(detail == word + more);
    assert(detail == before + "fps={"@ + after);
    assert(more[0] == ',' && more.last() == ')');
    law_a_header_is_read_as_it_stands(text, pad, id, gap, word, more);
    lemma_joined_is_plain(rates);
    assert(!joined.contains('}'));
    assert(after == joined + seq!['}'] + (rest + seq![')']));
    lemma_list_found(before, joined, rest + seq![')']);
    lemma_rates_read_back(Seq::empty(), rates);
    assert(Seq::<char>::empty() + joined == joined);
    assert(fps_in(detail) == rates);
    let cameras = cameras_in(text + header_line(pad, id, gap, detail).push('\n'));
    let camera = CameraView {
        id,
        facing: facing_by_word(word),
        sizes: Seq::empty(),
        fps: rates,
    };
    assert(cameras.last().sizes == Seq::<Seq<char>>::empty());
    assert(cameras.last() == camera);
    assert(cameras == cameras.drop_last().push(cameras.last()));
}

proof fn lemma_joined_is_plain(rates: Seq<u32>)
    ensures
        forall|j: int| 0 <= j < joined_rates(rates).len() ==> #[trigger] joined_rates(rates)[j] != '}',
    decreases rates.len(),
{
    if rates.len() > 0 {
        let digits = decimal(rates[0] as nat);
        let s = joined_rates(rates);
        law_decimal_is_plain(rates[0] as nat, 0);
        lemma_joined_is_plain(rates.skip(1));
        assert forall|j: int| 0 <= j < s.len() implies #[trigger] s[j] != '}' by {
            if j < digits.len() {
                assert(s[j] == digits[j]);
                assert('0' <= digits[j] <= '9');
            } else if j >= digits.len() + 2 {
                assert(s[j] == joined_rates(rates.skip(1))[j - digits.len() - 2]);
            }
        }
    }
}

/// A header without details makes a camera of which nothing but the id is known.
pub proof fn law_a_header_without_details_is_a_camera(
    text: Seq<char>,
    pad: Seq<char>,
    id: Seq<char>,
)
    requires
        text.len() > 0 ==> text.last() == '\n',
        is_blank(pad),
        id.len() > 0,
        is_bare(id),
        !id.contains('('),
        !(pad + "--camera-id="@ + id).contains('\n'),
    ensures
        cameras_in(text + (pad + "--camera-id="@ + id).push('\n')) == cameras_in(text).push(
            CameraView {
                id,
                facing: CameraFacing::External,
                sizes: Seq::empty(),
                fps: Seq::empty(),
            },
        ),
{
    reveal_strlit("fps={");
    reveal_strlit("front");
    reveal_strlit("back");
    let none = Seq::<char>::empty();
    lemma_not_found(id, '(');
    assert(id.take(id.len() as int) == none + id + none);
    law_trim_takes_white_space(none, id, none);
    lemma_facing_found(none, none);
    assert(none + none == none);
    assert("front"@.len() == 5 && "back"@.len() == 4);
    assert(!"fps={"@.is_prefix_of(none));
    lemma_header_line_read(text, pad, id);
}

/// The rates are read one by one, white space around them or not, wherever a number
/// stands between two commas.
pub proof fn law_each_rate_is_read_as_it_stands(
    before: Seq<char>,
    piece: Seq<char>,
    list: Seq<char>,
    rest: Seq<char>,
)
    requires
        !has_text(before, "fps={"@),
        !piece.contains(','),
        !piece.contains('}'),
        !list.contains('}'),
    ensures
        ({
            let read = match number(trim(piece), u32::MAX as int) {
                Some(n) => seq![n as u32],
                None => Seq::empty(),
            };
            &&& fps_in(before + "fps={"@ + (piece + seq!['}'] + rest)) == read
            &&& fps_in(before + "fps={"@ + (piece + seq![','] + list + seq!['}'] + rest)) == read
                + fps_in(before + "fps={"@ + (list + seq!['}'] + rest))
        }),
{
    let read = |text: Seq<char>|
        match number(trim(text), u32::MAX as int) {
            Some(n) => Some(n as u32),
            None => None,
        };
    let long = piece + seq![','] + list;
    lemma_contains_either(piece + seq![','], list, '}');
    lemma_contains_either(piece, seq![','], '}');
    assert(!seq![','].contains('}')) by {
        if seq![','].contains('}') {
            assert(seq![','][0] == '}');
        }
    }
    assert(piece + seq![','] + list + seq!['}'] + rest == long + seq!['}'] + rest);
    lemma_list_found(before, long, rest);
    lemma_list_found(before, list, rest);
    lemma_list_found(before, piece, rest);
    assert(long == piece.push(',') + list);
    law_a_piece_ends_at_its_separator(piece, ',', list);
    Seq::lemma_filter_map_singleton(piece, read);
    lemma_filter_map_front(piece, split(list, ','), read);
}

/// What is no number among the rates is passed over, and a list of rates that is not
/// closed gives none.
pub proof fn law_what_is_no_rate_is_passed_over(
    before: Seq<char>,
    piece: Seq<char>,
    list: Seq<char>,
    rest: Seq<char>,
)
    requires
        !has_text(before, "fps={"@),
        !piece.contains(','),
        !piece.contains('}'),
        !list.contains('}'),
        number(trim(piece), u32::MAX as int) is None,
    ensures
        fps_in(before + "fps={"@ + (piece + seq![','] + list + seq!['}'] + rest)) == fps_in(
            before + "fps={"@ + (list + seq!['}'] + rest),
        ),
        fps_in(before + "fps={"@ + list) == Seq::<u32>::empty(),
{
    law_each_rate_is_read_as_it_stands(before, piece, list, rest);
    let read = fps_in(before + "fps={"@ + (list + seq!['}'] + rest));
    assert(Seq::<u32>::empty() + read == read);
    // Without an end.
    lemma_rates_found(before, list);
    reveal_strlit("fps={");
    assert((before + "fps={"@ + list).skip(before.len() as int + 5) == list);
    lemma_not_found(list, '}');
}

proof fn lemma_not_found(s: Seq<char>, c: char)
    requires
        !s.contains(c),
    ensures
        find(s, c) == s.len(),
{
    assert forall|j: int| 0 <= j < s.len() implies other_than(c)(#[trigger] s[j]) by {
        if s[j] == c {
            assert(s.contains(c));
        }
    }
    lemma_head_run_is(s, other_than(c), s.len() as int);
}

proof fn lemma_contains_either(a: Seq<char>, b: Seq<char>, c: char)
    ensures
        (a + b).contains(c) ==> a.contains(c) || b.contains(c),
{
    if (a + b).contains(c) {
        let i = choose|i: int| 0 <= i < (a + b).len() && (a + b)[i] == c;
        if i < a.len() {
            assert(a[i] == c);
        } else {
            assert(b[i - a.len()] == c);
        }
    }
}

/// The list of rates ends at the first closing brace.
proof fn lemma_list_found(before: Seq<char>, list: Seq<char>, rest: Seq<char>)
    requires
        !has_text(before, "fps={"@),
        !list.contains('}'),
    ensures
        fps_in(before + "fps={"@ + (list + seq!['}'] + rest)) == rates_in(split(list, ',')),
{
    reveal_strlit("fps={");
    let after = list + seq!['}'] + rest;
    lemma_rates_found(before, after);
    assert((before + "fps={"@ + after).skip(before.len() as int + 5) == after);
    let n = list.len() as int;
    assert forall|j: int| 0 <= j < n implies other_than('}')(#[trigger] after[j]) by {
        assert(after[j] == list[j]);
        if list[j] == '}' {
            assert(list.contains('}'));
        }
    }
    assert(after[n] == '}');
    lemma_head_run_is(after, other_than('}'), n);
    assert(after.take(n) == list);
}

/// A size is two rows of digits with an `x` between them, and nothing else.
pub proof fn law_the_shape_of_a_size(s: Seq<char>)
    ensures
        is_size_text(s) <==> exists|i: int|
            {
                &&& 0 < i < s.len() - 1
                &&& #[trigger] s[i] == 'x'
                &&& forall|j: int| 0 <= j < s.len() && j != i ==> '0' <= #[trigger] s[j] <= '9'
            },
{
    let p = other_than('x');
    lemma_head_run(s, p);
    let n = find(s, 'x');
    if is_size_text(s) {
        assert(s[n] == 'x');
        assert forall|j: int| 0 <= j < s.len() && j != n implies '0' <= #[trigger] s[j] <= '9' by {
            if j < n {
                assert(is_digit(s.take(n)[j]));
            } else {
                assert(is_digit(s.skip(n + 1)[j - n - 1]));
            }
        }
    }
    if exists|i: int|
        {
            &&& 0 < i < s.len() - 1
            &&& #[trigger] s[i] == 'x'
            &&& forall|j: int| 0 <= j < s.len() && j != i ==> '0' <= #[trigger] s[j] <= '9'
        } {
        let i = choose|i: int|
            {
                &&& 0 < i < s.len() - 1
                &&& #[trigger] s[i] == 'x'
                &&& forall|j: int| 0 <= j < s.len() && j != i ==> '0' <= #[trigger] s[j] <= '9'
            };
        assert forall|j: int| 0 <= j < i implies p(#[trigger] s[j]) by {
            assert('0' <= s[j] <= '9');
        }
        lemma_head_run_is(s, p, i);
        assert forall|j: int| 0 <= j < s.take(i).len() implies is_digit(
            #[trigger] s.take(i)[j],
        ) by {
            assert('0' <= s[j] <= '9');
        }
        assert forall|j: int| 0 <= j < s.skip(i + 1).len() implies is_digit(
            #[trigger] s.skip(i + 1)[j],
        ) by {
            assert('0' <= s[i + 1 + j] <= '9');
        }
    }
}

/// A line behind a hyphen and a blank is a size of the camera before it where it has
/// the shape of one, and nothing otherwise; so is every line that is no header.
pub proof fn law_a_size_line_is_read_as_it_stands(
    text: Seq<char>,
    pad: Seq<char>,
    gap: Seq<char>,
    size: Seq<char>,
)
    requires
        text.len() > 0 ==> text.last() == '\n',
        is_blank(pad),
        is_blank(gap),
        size.len() > 0,
        is_bare(size),
        !(pad + "- "@ + gap + size).contains('\n'),
    ensures
        ({
            let before = cameras_in(text);
            let after = cameras_in(text + (pad + "- "@ + gap + size).push('\n'));
            if before.len() > 0 && is_size_text(size) {
                &&& after.len() == before.len()
                &&& after.drop_last() == before.drop_last()
                &&& after.last().id == before.last().id
                &&& after.last().facing == before.last().facing
                &&& after.last().fps == before.last().fps
                &&& after.last().sizes == before.last().sizes.push(size)
            } else {
                after == before
            }
        }),
{
    reveal_strlit("- ");
    reveal_strlit("--camera-id=");
    let none = Seq::<char>::empty();
    let bare = "- "@ + gap + size;
    let line = pad + "- "@ + gap + size;
    assert(line.last() == size.last());
    lemma_one_more_line(text, line);
    assert(line == pad + bare + none);
    assert(bare[0] == '-' && bare.last() == size.last());
    law_trim_takes_white_space(pad, bare, none);
    assert("- "@.is_prefix_of(bare));
    assert(bare.skip("- "@.len() as int) == gap + size + none);
    law_trim_takes_white_space(gap, size, none);
    if "--camera-id="@.is_prefix_of(bare) {
        assert(bare.subrange(0, 12)[1] == bare[1]);
        assert("--camera-id="@[1] == '-');
        assert(bare[1] == ' ');
    }
    assert(lines(text).push(line).drop_last() == lines(text));
}

/// A line that is neither a header nor stands behind a hyphen and a blank is passed
/// over, as is a header without an id.
pub proof fn law_lines_of_another_kind_are_passed_over(
    text: Seq<char>,
    line: Seq<char>,
    pad: Seq<char>,
    gap: Seq<char>,
    detail: Seq<char>,
)
    requires
        text.len() > 0 ==> text.last() == '\n',
    ensures
        cameras_in(Seq::empty()) == Seq::<CameraView>::empty(),
        !line.contains('\n') && (line.len() == 0 || line.last() != '\r')
            && !"--camera-id="@.is_prefix_of(trim(line)) && !"- "@.is_prefix_of(trim(line))
            ==> cameras_in(text + line.push('\n')) == cameras_in(text),
        is_blank(pad) && is_blank(gap) && (detail.len() > 0 ==> !is_space(detail.last()))
            && !header_line(pad, Seq::empty(), gap, detail).contains('\n') ==> cameras_in(
            text + header_line(pad, Seq::empty(), gap, detail).push('\n'),
        ) == cameras_in(text),
{
    law_a_line_ends_at_its_line_feed(Seq::empty());
    if !line.contains('\n') && (line.len() == 0 || line.last() != '\r') {
        lemma_one_more_line(text, line);
        assert(lines(text).push(line).drop_last() == lines(text));
    }
    let bare_line = header_line(pad, Seq::empty(), gap, detail);
    if is_blank(pad) && is_blank(gap) && (detail.len() > 0 ==> !is_space(detail.last()))
        && !bare_line.contains('\n') {
        reveal_strlit("--camera-id=");
        reveal_strlit("(");
        let none = Seq::<char>::empty();
        let rest = gap + "("@ + detail;
        let bare = "--camera-id="@ + rest;
        assert(bare_line == pad + bare + none);
        assert(bare_line.last() == if detail.len() > 0 {
            detail.last()
        } else {
            '('
        });
        assert(bare.last() == bare_line.last());
        lemma_one_more_line(text, bare_line);
        law_trim_takes_white_space(pad, bare, none);
        assert("--camera-id="@.is_prefix_of(bare));
        assert(bare.skip("--camera-id="@.len() as int) == rest);
        let n = gap.len() as int;
        assert forall|j: int| 0 <= j < n implies other_than('(')(#[trigger] rest[j]) by {
            assert(rest[j] == gap[j]);
            assert(is_space(gap[j]));
        }
        assert(rest[n] == '(');
        lemma_head_run_is(rest, other_than('('), n);
        assert(rest.take(n) == none + none + gap);
        law_trim_takes_white_space(none, none, gap);
        assert(lines(text).push(bare_line).drop_last() == lines(text));
    }
}

/// The device to write into is found by the name of its card, whatever white space
/// the kernel puts around it, among those whose own name begins with `video`.
pub proof fn law_the_loopback_is_known_by_its_card(
    device: VideoDevice,
    before: Seq<char>,
    card: Seq<char>,
    after: Seq<char>,
)
    requires
        is_blank(before),
        is_bare(card),
        is_blank(after),
    ensures
        device.label is None ==> !is_loopback(device),
        device.label is Some && device.label->0@ == before + card + after ==> (is_loopback(device)
            <==> card == "VasakOS Phone"@ && device.name@.len() >= 5 && device.name@.take(5)
            == seq!['v', 'i', 'd', 'e', 'o']),
{
    reveal_strlit("video");
    law_trim_takes_white_space(before, card, after);
    if device.name@.len() >= 5 {
        assert(device.name@.take(5) == device.name@.subrange(0, 5));
        assert("video"@ == seq!['v', 'i', 'd', 'e', 'o']);
    }
}

/// Of several devices to write into, the one chosen has the first name of all.
pub proof fn law_the_first_loopback_is_chosen(devices: Seq<VideoDevice>, i: int, j: int)
    requires
        is_chosen(devices, i),
        0 <= j < devices.len(),
        is_loopback(devices[j]),
    ensures
        is_loopback(devices[i]),
        devices[i].name@ == devices[j].name@ || precedes(devices[i].name@, devices[j].name@),
{
    lemma_precedes_total(devices[i].name@, devices[j].name@);
}

/// The arguments that start a camera: the phone, the camera and the device are named,
/// and a size and a rate are passed on exactly where they are asked for, each
/// whatever the other is.
pub proof fn law_the_arguments_of_a_stream(
    serial: Seq<char>,
    camera_id: Seq<char>,
    device: Seq<char>,
    size: Seq<char>,
    fps: nat,
)
    ensures
        ({
            let args = stream_args(serial, camera_id, device, size, fps);
            let sized: int = if size.len() > 0 {
                1
            } else {
                0
            };
            let rated: int = if fps > 0 {
                1
            } else {
                0
            };
            &&& args.len() == 9 + sized + rated
            &&& args[0] == "-s"@
            &&& args[1] == serial
            &&& args[2] == "--video-source=camera"@
            &&& args[3] == "--camera-id="@ + camera_id
            &&& args[4] == "--v4l2-sink="@ + device
            &&& args[5] == "--no-window"@
            &&& args[6] == "--no-video-playback"@
            &&& args[7] == "--no-audio"@
            &&& args[8] == "--v4l2-buffer=0"@
            &&& size.len() > 0 ==> args[9] == "--camera-size="@ + size
            &&& fps > 0 ==> args[9 + sized] == "--camera-fps="@ + decimal(fps)
        }),
{
}

/// Each error in words, and the path of a device.
pub proof fn law_webcam_errors_say_what_happened(
    msg: Seq<char>,
    err: IoErrorView,
    name: Seq<char>,
)
    ensures
        WebcamErrorView::Missing.message() == "scrcpy no está instalado"@,
        WebcamErrorView::NoLoopback.message()
            == "no hay un dispositivo de bucle de vídeo: falta cargar el módulo v4l2loopback (si acabás de actualizar el kernel, reiniciá)"@,
        WebcamErrorView::Busy.message()
            == "la cámara ya está en uso: un dispositivo de vídeo admite una sola fuente"@,
        WebcamErrorView::TimedOut.message() == "el teléfono no respondió a tiempo"@,
        WebcamErrorView::Failed(msg).message() == "scrcpy falló: "@ + msg,
        WebcamErrorView::Io(err).message() == "no se pudo ejecutar scrcpy: "@ + err.message,
        device_path(name) == "/dev/"@ + name,
{
}

/// A list of cameras holds what its entries hold, one for one, and an error is told
/// with all that it carries.
pub proof fn law_lists_hold_their_cameras(cameras: Seq<Camera>, err: WebcamError)
    ensures
        camera_views(cameras).len() == cameras.len(),
        forall|i: int|
            0 <= i < cameras.len() ==> #[trigger] camera_views(cameras)[i] == cameras[i]@,
        err is Missing ==> err@ is Missing,
        err is NoLoopback ==> err@ is NoLoopback,
        err is Busy ==> err@ is Busy,
        err is TimedOut ==> err@ is TimedOut,
        err matches WebcamError::Failed(msg) ==> err@ == WebcamErrorView::Failed(msg@),
        err matches WebcamError::Io(why) ==> err@ == WebcamErrorView::Io(why@),
{
}

/// White space around the lines does not count.
pub proof fn law_indentation_does_not_matter(a: Seq<Seq<char>>, b: Seq<Seq<char>>)
    requires
        a.len() == b.len(),
        forall|i: int| 0 <= i < a.len() ==> trim(#[trigger] a[i]) == trim(b[i]),
    ensures
        cameras_in_lines(a) == cameras_in_lines(b),
    decreases a.len(),
{
    if a.len() > 0 {
        let x = a.drop_last();
        let y = b.drop_last();
        assert forall|i: int| 0 <= i < x.len() implies trim(#[trigger] x[i]) == trim(y[i]) by {
            assert(x[i] == a[i] && y[i] == b[i]);
        }
        law_indentation_does_not_matter(x, y);
        assert(trim(a[a.len() - 1]) == trim(b[b.len() - 1]));
    }
}

} // verus!
