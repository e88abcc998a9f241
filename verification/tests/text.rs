use vasak_connect::numerals::{all_digits, decimal_of, number_of, padded_of};
use vasak_connect::protocol::{
    CameraFacing, DeviceState, Transport, SERVICE_INTERFACE, SERVICE_NAME, SERVICE_PATH,
    V4L2_LABEL_MAX, WEBCAM_CARD_LABEL,
};
use vasak_connect::table::{comes_before, Table};
use vasak_connect::text::{
    chars_of, contains_text, is_whitespace, lines_of, position_of, spaced_of, split_of, string_of,
    trimmed, words_of,
};

const SAMPLES: [&str; 12] = [
    "",
    " ",
    "\n",
    "a",
    "a b",
    "  a\tb \u{2003} c  ",
    "uno\ndos\r\ntres",
    "uno\n\ndos\n",
    "\r\n\r",
    "tel\u{e9}fono \u{1f4f1}",
    "a,b,,c,",
    "\u{85}x\u{a0}y\u{3000}",
];

fn texts(parts: &[&[char]]) -> Vec<String> {
    parts.iter().map(|p| string_of(p)).collect()
}

#[test]
fn white_space_is_what_the_standard_library_calls_so() {
    for c in '\0'..=char::MAX {
        assert_eq!(is_whitespace(c), c.is_whitespace(), "{:?}", c);
    }
}

#[test]
fn text_is_taken_apart_as_the_standard_library_does() {
    for s in SAMPLES {
        let chars = chars_of(s);
        assert_eq!(string_of(&chars), s);
        assert_eq!(string_of(trimmed(&chars)), s.trim(), "{:?}", s);
        assert_eq!(texts(&lines_of(&chars)), s.lines().collect::<Vec<_>>(), "{:?}", s);
        assert_eq!(texts(&words_of(&chars)), s.split_whitespace().collect::<Vec<_>>(), "{:?}", s);
        assert_eq!(texts(&split_of(&chars, ',')), s.split(',').collect::<Vec<_>>(), "{:?}", s);
        assert_eq!(spaced_of(&chars), s.replace('_', " "));
        for part in ["", "a", "\n", "b,,c", "dos"] {
            assert_eq!(contains_text(&chars, part), s.contains(part), "{:?} in {:?}", part, s);
        }
    }
    assert_eq!(position_of(&chars_of("aXbXc"), "X"), Some(1));
    assert_eq!(position_of(&chars_of("abc"), "X"), None);
    assert_eq!(spaced_of(&chars_of("motorola_edge_40")), "motorola edge 40");
}

#[test]
fn numbers_are_read_as_the_standard_library_does() {
    for s in ["0", "+0", "007", "65535", "65536", "-1", "", "+", "1 ", "4294967295", "4294967296", "99999999999999999999", "1a", "\u{661}"] {
        let chars = chars_of(s);
        assert_eq!(number_of(&chars, u32::MAX), s.parse::<u32>().ok(), "{:?}", s);
        assert_eq!(number_of(&chars, 65_535), s.parse::<u16>().ok().map(u32::from), "{:?}", s);
    }
    assert!(all_digits(&chars_of("0123")));
    assert!(!all_digits(&chars_of("")));
    assert!(!all_digits(&chars_of("12x")));
}

#[test]
fn numbers_are_spelled_as_the_standard_library_does() {
    for n in [0, 7, 10, 99, 100, 1970, 12_345, u64::MAX] {
        assert_eq!(decimal_of(n), n.to_string());
        assert_eq!(padded_of(n, 4), format!("{:04}", n));
    }
    // What is spelled is read back.
    assert_eq!(number_of(&chars_of(&decimal_of(4_294_967_295)), u32::MAX), Some(u32::MAX));
}

#[test]
fn texts_are_ordered_as_the_standard_library_does() {
    for a in SAMPLES {
        for b in SAMPLES {
            assert_eq!(comes_before(a, b), a < b, "{:?} and {:?}", a, b);
        }
    }
}

#[test]
fn a_table_keeps_one_value_for_a_key() {
    let mut table: Table<u32> = Table::new();
    for (n, key) in ["m", "a", "z", "a", "\u{e9}"].iter().enumerate() {
        table.insert(key.to_string(), n as u32);
    }
    let rows: Vec<(&str, u32)> = table.rows().iter().map(|(k, v)| (k.as_str(), **v)).collect();
    assert_eq!(rows, [("a", 3), ("m", 0), ("z", 2), ("\u{e9}", 4)]);
    assert_eq!(table.get("a"), Some(&3));
    assert_eq!(table.remove("a"), Some(3));
    assert_eq!(table.remove("a"), None);
    assert!(!table.contains_key("a"));
    assert!(table.contains_key("z"));
    assert_eq!(table.rows().len(), 3);
}

#[test]
fn the_names_on_the_bus() {
    assert_eq!(SERVICE_NAME, "ar.net.vasak.os.Connect");
    assert_eq!(SERVICE_PATH, "/ar/net/vasak/os/Connect");
    assert_eq!(SERVICE_INTERFACE, SERVICE_NAME);
    assert_eq!(Transport::Usb.as_str(), "usb");
    assert_eq!(Transport::Tcp.as_str(), "tcp");
    assert_eq!(DeviceState::Ready.as_str(), "ready");
    assert_eq!(DeviceState::Unauthorized.as_str(), "unauthorized");
    assert_eq!(DeviceState::Connecting.as_str(), "connecting");
    assert_eq!(DeviceState::Offline.as_str(), "offline");
    assert_eq!(CameraFacing::parse(" front "), CameraFacing::Front);
    assert_eq!(CameraFacing::parse("back").as_str(), "back");
    assert_eq!(CameraFacing::parse("Back").as_str(), "external");
    assert!(WEBCAM_CARD_LABEL.len() <= V4L2_LABEL_MAX);
}
