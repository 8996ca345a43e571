use bis2::ui::{Escape, Line, Matches, TermStack};

fn caps(entries: &[(&str, &str)]) -> Escape {
    let v: Vec<(String, String)> = entries
        .iter()
        .map(|(n, s)| (n.to_string(), s.to_string()))
        .collect();
    Escape::create(v)
}

#[test]
fn expander_pushes_and_prints_parameters() {
    let esc = caps(&[("cuu", "\u{1b}[%p1%dA")]);
    let mut params = Vec::new();
    params.push(TermStack::Int(3));
    let out = esc.get_string(&"cuu".to_string(), &params).unwrap();
    assert_eq!(out, "\u{1b}[3A");
}

#[test]
fn expander_handles_literal_percent_rule() {
    // %% is a literal percent; an unknown escape character is dropped
    let esc = caps(&[("x", "a%%b%qc")]);
    let out = esc.get_string(&"x".to_string(), &Vec::new()).unwrap();
    assert_eq!(out, "a%bc");
}

#[test]
fn missing_capability_is_none() {
    let esc = caps(&[]);
    assert!(esc.get_string(&"cuu".to_string(), &Vec::new()).is_none());
}

#[test]
fn line_render_plain_and_selected() {
    let l = Line::new("cargo build".to_string());
    assert_eq!(l.render(None, false), "\ncargo build");
    assert_eq!(l.render(None, true), "\n-> cargo build");
}

#[test]
fn line_render_truncates_to_width() {
    let l = Line::new("abcdefgh".to_string());
    let out = l.render(Some(4), false);
    // the rendered row starts with a newline; the result is the longest
    // prefix whose displayed width fits
    assert!(out.starts_with('\n'));
    assert!(unicode_width::UnicodeWidthStr::width(out.as_str()) <= 4);
    let untruncated = l.render(None, false);
    assert!(untruncated.starts_with(&out));
    assert!(out.len() < untruncated.len());
}

#[test]
fn matches_render_marks_selection() {
    let m = Matches::new(vec!["one".to_string(), "two".to_string()]);
    assert_eq!(m.len(), 2);
    assert_eq!(m.get(0).unwrap().get(), "one");
    assert!(m.get(2).is_none());
    let out = m.render(80, 1);
    assert_eq!(out, "\none\n-> two");
}

#[test]
fn escape_fragments_compose() {
    let esc = caps(&[
        ("sc", "S"),
        ("rc", "R"),
        ("ed", "E"),
        ("el", "L"),
        ("cuu", "U%p1%d"),
        ("cub", "B%p1%d"),
    ]);
    assert_eq!(esc.save_cursor(), "S");
    assert_eq!(esc.restore_cursor(), "R");
    assert_eq!(esc.clear_screen(), "E");
    assert_eq!(esc.query_output('x'), "xSE");
    assert_eq!(esc.move_back(2), "B2SE");
    assert_eq!(esc.bell(), "\u{7}");
    // five rows leave room for four newlines, then cursor-up by four
    assert_eq!(esc.make_space(5), "\n\n\n\nU4");
    assert_eq!(esc.render_prompt(5), "\n\n\n\nU4Match: SE");
    let m = Matches::new(vec!["one".to_string(), "two".to_string()]);
    assert_eq!(esc.matches_output(&m, 80, 0), "E\n-> one\ntwoR");
    assert_eq!(esc.match_down(&m, 80, 1), "\noneL\n-> twoLR");
    assert_eq!(esc.match_up(&m, 80, 0), "\n-> oneL\ntwoLR");
    assert_eq!(esc.best_match_output(&m, 0, false), " -> one\nE");
    assert_eq!(esc.best_match_output(&m, 1, true), "recent -> two\nE");
    assert_eq!(esc.best_match_output(&m, 5, false), "\nE");
}

#[test]
fn selection_walk_skips_earlier_rows() {
    let esc = caps(&[("el", "L"), ("rc", "R")]);
    let m = Matches::new(vec!["a".to_string(), "b".to_string(), "c".to_string()]);
    // moving down to row 2 first walks one newline past row 0
    assert_eq!(esc.match_down(&m, 80, 2), "\n\nbL\n-> cLR");
}
