use xaffinity::text::{decode_latin1, same_text, text_precedes};
use xaffinity::Monitor;

#[test]
fn latin1_bytes_become_characters() {
    assert_eq!(decode_latin1(b"HDMI-1"), "HDMI-1");
    assert_eq!(decode_latin1(&[]), "");
    assert_eq!(decode_latin1(&[0x45, 0xe9, 0xff, 0x80]), "E\u{e9}\u{ff}\u{80}");
}

#[test]
fn a_monitor_is_built_from_what_the_server_reports() {
    let m = Monitor::from_raw(&[0x44, 0x50, 0x2d, 0xb5], -5, 1080, 65535, 2160, true);
    assert_eq!(m.name, "DP-\u{b5}");
    assert_eq!(m.x, -5);
    assert_eq!(m.y, 1080);
    assert_eq!(m.width, 65535);
    assert_eq!(m.height, 2160);
    assert!(m.primary);
}

#[test]
fn clone_keeps_every_field() {
    let m = Monitor::from_raw(b"eDP-1", 1, -2, 3, 4, false);
    let c = m.clone();
    assert_eq!(c.name, "eDP-1");
    assert_eq!((c.x, c.y, c.width, c.height, c.primary), (1, -2, 3, 4, false));
}

#[test]
fn same_text_compares_characters() {
    assert!(same_text("", ""));
    assert!(same_text("not", "not"));
    assert!(!same_text("not", "nod"));
    assert!(!same_text("not", "no"));
    assert!(!same_text("no", "not"));
    assert!(same_text("d\u{e9}j\u{e0}", "d\u{e9}j\u{e0}"));
    assert!(!same_text("d\u{e9}j\u{e0}", "d\u{e8}j\u{e0}"));
}

#[test]
fn text_order_is_that_of_strings() {
    let samples = [
        "", "A", "AB", "B", "a", "DP-1", "DP-10", "DP-2", "HDMI-1", "eDP-1", "\u{e9}", "z",
        "\u{7f}", "\u{80}", "\u{7ff}", "\u{800}", "\u{ffff}", "\u{10000}",
    ];
    for a in samples {
        for b in samples {
            assert_eq!(text_precedes(a, b), a <= b, "{:?} and {:?}", a, b);
        }
        assert!(text_precedes(a, a));
    }
    assert!(text_precedes("LARGE", "PRIMARY"));
    assert!(!text_precedes("TOP", "PRIMARY"));
    assert!(text_precedes("DP-1", "DP-10"));
    assert!(!text_precedes("DP-10", "DP-1"));
}
