use bis2::search::{LineInfo, SearchBase};

fn base_of(lines: &[(&str, i64)]) -> SearchBase {
    let mut infos = Vec::new();
    for (l, f) in lines {
        infos.push(LineInfo::new(l.to_string(), *f));
    }
    SearchBase::new(infos)
}

#[test]
fn empty_query_matches_nothing() {
    let base = base_of(&[("echo a", 0), ("ls", 1)]);
    let r = base.query("", 10);
    assert!(r.is_empty());
}

#[test]
fn single_letter_scores_word_start() {
    // heat map of "echo a" is [3,3,3,3,8,5]; "e" matches at 0: 3 * 5 = 15
    let li = LineInfo::new("echo a".to_string(), 0);
    assert_eq!(li.score("e"), Some(15));
    // "a" matches at 5: 5 * 5 = 25
    assert_eq!(li.score("a"), Some(25));
}

#[test]
fn two_letter_query_pays_distance() {
    // "grep foo": heat [3,3,3,3,8,5,2,0]; "gf" picks 0 and 5:
    // avg = (5-0)/2 = 2; score = 2*(-10) + (3+5)*5 = 20
    let li = LineInfo::new("grep foo".to_string(), 0);
    assert_eq!(li.score("gf"), Some(20));
}

#[test]
fn non_subsequence_has_no_score() {
    let li = LineInfo::new("grep bar".to_string(), 0);
    assert_eq!(li.score("gf"), None);
    assert_eq!(li.score("xyz"), None);
    // order matters: a subsequence must be ascending
    let li2 = LineInfo::new("ab".to_string(), 0);
    assert_eq!(li2.score("ba"), None);
}

#[test]
fn whitespace_in_query_never_matches() {
    // whitespace positions are not indexed
    let li = LineInfo::new("git status".to_string(), 0);
    assert_eq!(li.score("t s"), None);
    assert!(li.score("ts").is_some());
}

#[test]
fn uppercase_line_matches_lowercase_query() {
    let li = LineInfo::new("Echo".to_string(), 0);
    assert!(li.score("e").is_some());
    assert!(li.score("E").is_some());
    // the reverse is not folded: uppercase query only matches uppercase
    let li2 = LineInfo::new("echo".to_string(), 0);
    assert!(li2.score("E").is_none());
}

#[test]
fn query_returns_at_most_n() {
    let base = base_of(&[("a1", 0), ("a2", 0), ("a3", 0), ("a4", 0)]);
    let r = base.query("a", 2);
    assert_eq!(r.len(), 2);
    let all = base.query("a", 10);
    assert_eq!(all.len(), 4);
}

#[test]
fn query_orders_by_score_then_factor() {
    // same score, factor breaks the tie downward
    let base = base_of(&[("echo a", 0), ("echo b", 2), ("echo c", 1)]);
    let r = base.query("e", 10);
    assert_eq!(r, vec!["echo b".to_string(), "echo c".to_string(), "echo a".to_string()]);
}

#[test]
fn query_drops_non_matching_lines() {
    let base = base_of(&[("echo a", 0), ("ls", 5)]);
    let r = base.query("e", 10);
    assert_eq!(r, vec!["echo a".to_string()]);
}

#[test]
fn lines_beyond_cap_are_not_indexed() {
    // the indexed prefix is 80 characters; a match past it does not count
    let mut long = String::new();
    for _ in 0..80 {
        long.push('a');
    }
    long.push('z');
    let li = LineInfo::new(long, 0);
    assert_eq!(li.score("z"), None);
    assert!(li.score("a").is_some());
}

#[test]
fn best_alignment_wins() {
    // "xx axx": 'x' occurs at 0, 1, 4 and 5; the first position carries the
    // most heat (3), and the best tuple score 3 * 5 is returned
    let li = LineInfo::new("xx axx".to_string(), 0);
    let s = li.score("x").unwrap();
    assert_eq!(s, 15);
}

#[test]
fn digit_class_changes_earn_heat() {
    // ";1;1": each switch between punctuation and digits toggles the class
    // bonus, so the second '1' sits on more heat than a repeated symbol would
    let li = LineInfo::new(";1;1".to_string(), 0);
    assert_eq!(li.score("1"), Some(20));
}

#[test]
fn query_caps_at_ten_matches() {
    let mut entries = Vec::new();
    let lines: Vec<String> = (0..12).map(|i| format!("task{}", i)).collect();
    for l in &lines {
        entries.push((l.as_str(), 0i64));
    }
    let base = base_of(&entries);
    let r = base.query("task", 10);
    assert_eq!(r.len(), 10);
}
