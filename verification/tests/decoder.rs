use bis2::constants::utf8_char_width;
use bis2::events::{decode_utf8_char, Decoder, Event};

#[test]
fn plain_char_yields_one_input() {
    let mut d = Decoder::new();
    let evs = d.step('x');
    assert_eq!(evs.len(), 1);
    assert!(matches!(evs[0], Event::Input('x')));
    assert!(!d.done());
}

#[test]
fn escape_bracket_a_yields_keyup() {
    let mut d = Decoder::new();
    assert!(d.step('\u{1b}').is_empty());
    assert!(d.step('[').is_empty());
    let evs = d.step('A');
    assert_eq!(evs.len(), 1);
    assert!(matches!(evs[0], Event::KeyUp));
}

#[test]
fn escape_bracket_b_yields_keydown() {
    let mut d = Decoder::new();
    assert!(d.step('\u{1b}').is_empty());
    assert!(d.step('[').is_empty());
    let evs = d.step('B');
    assert_eq!(evs.len(), 1);
    assert!(matches!(evs[0], Event::KeyDown));
}

#[test]
fn unknown_escape_yields_bell_then_input() {
    let mut d = Decoder::new();
    assert!(d.step('\u{1b}').is_empty());
    assert!(d.step('[').is_empty());
    let evs = d.step('X');
    assert_eq!(evs.len(), 2);
    assert!(matches!(evs[0], Event::Bell));
    assert!(matches!(evs[1], Event::Input('X')));
}

#[test]
fn quit_events_and_silence_after() {
    let mut d = Decoder::new();
    let evs = d.step('\n');
    assert_eq!(evs.len(), 1);
    assert!(matches!(evs[0], Event::Quit(true)));
    assert!(d.done());
    // after a quit nothing more comes out
    assert!(d.step('x').is_empty());
    assert!(d.step('\u{1b}').is_empty());
    assert!(d.step('\u{3}').is_empty());
}

#[test]
fn control_keys_map_to_events() {
    let mut d = Decoder::new();
    assert!(matches!(d.step('\u{15}')[0], Event::Clear));
    assert!(matches!(d.step('\u{12}')[0], Event::KeyDown));
    assert!(matches!(d.step('\u{13}')[0], Event::KeyUp));
    assert!(matches!(d.step('\u{8}')[0], Event::Backspace));
    assert!(matches!(d.step('\u{7f}')[0], Event::Backspace));
    assert!(matches!(d.step('\u{1}')[0], Event::Bell));
    let evs = d.step('\u{4}');
    assert!(matches!(evs[0], Event::Quit(false)));
    assert!(d.done());
}

#[test]
fn ctrl_c_cancels() {
    let mut d = Decoder::new();
    let evs = d.step('\u{3}');
    assert!(matches!(evs[0], Event::Quit(false)));
}

#[test]
fn carriage_return_confirms() {
    let mut d = Decoder::new();
    let evs = d.step('\r');
    assert!(matches!(evs[0], Event::Quit(true)));
}

#[test]
fn decode_single_and_multi_byte() {
    assert_eq!(decode_utf8_char(&vec![b'a']), Some('a'));
    assert_eq!(decode_utf8_char(&vec![0xC3, 0xA9]), Some('\u{e9}'));
    assert_eq!(decode_utf8_char(&vec![0xE2, 0x82, 0xAC]), Some('\u{20ac}'));
    // invalid first byte
    assert_eq!(decode_utf8_char(&vec![0xFF]), None);
    // two characters are not one
    assert_eq!(decode_utf8_char(&vec![b'a', b'b']), None);
}

#[test]
fn maybe_clone_copies_small_events() {
    assert!(matches!(Event::Input('q').maybe_clone(), Some(Event::Input('q'))));
    assert!(matches!(Event::Quit(true).maybe_clone(), Some(Event::Quit(true))));
    assert!(matches!(Event::KeyUp.maybe_clone(), Some(Event::KeyUp)));
    assert!(matches!(Event::Bell.maybe_clone(), Some(Event::Bell)));
    let m = Event::Match(vec!["a".to_string()], "q".to_string()).maybe_clone();
    match m {
        Some(Event::Match(lines, q)) => {
            assert_eq!(lines, vec!["a".to_string()]);
            assert_eq!(q, "q".to_string());
        },
        _ => panic!("expected a match event"),
    }
    assert!(Event::HistoryReady(vec![]).maybe_clone().is_none());
}

#[test]
fn utf8_widths() {
    assert_eq!(utf8_char_width(b'a'), 1);
    assert_eq!(utf8_char_width(0x7F), 1);
    assert_eq!(utf8_char_width(0x80), 0);
    assert_eq!(utf8_char_width(0xC1), 0);
    assert_eq!(utf8_char_width(0xC3), 2);
    assert_eq!(utf8_char_width(0xE2), 3);
    assert_eq!(utf8_char_width(0xF0), 4);
    assert_eq!(utf8_char_width(0xF5), 0);
}
