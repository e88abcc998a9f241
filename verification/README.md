# vasak-connect

Use the apps of an Android phone as windows of the VasakOS desktop: a service on
the session bus watches udev for phones, lists what is installed on them, opens
each app in a window of its own, and offers the phone's camera as a webcam.

## Layout

- `src/` decides, and is verified with [Verus](https://github.com/verus-lang/verus):
  what the output of adb and scrcpy says, which devices arrived, left or changed,
  which devices are known, which windows are open, when adb may be run at all.
  Every function states in its contract what it returns; properties of the whole,
  such as that a phone waiting for the debugging prompt never becomes known, are
  proof functions whose names begin with `law_`.
- `app/` acts: it runs the programs, asks udev, reads and writes
  `~/.config/vasak/connect.json`, and speaks D-Bus.
- `tests/` runs the library on concrete input.

| Module | What it holds |
|---|---|
| `protocol`, `errors` | the types and names on the bus |
| `adb` | devices and apps, read from what adb and scrcpy print |
| `webcam` | cameras, the loopback device, the one stream |
| `windows` | the open windows, and the arguments for scrcpy |
| `registry`, `table` | the known devices, in a sorted table |
| `service` | what the service believes, and how a look at adb changes it |
| `daemon`, `hotplug` | what events of udev mean, and when adb is run |
| `notify`, `permiso` | what the person is told, and asked |
| `calendar`, `numerals`, `text`, `process` | dates, numbers, text, ended programs |

## What is taken on trust

Of the standard library: `String::push`, `String::from_utf8_lossy`,
`SystemTime::now` and `SystemTime::duration_since`. Nothing is claimed of the
time that the clock shows.
