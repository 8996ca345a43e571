use bis2::completions::Completions;
use bis2::history::build_history;

fn lines(ls: &[&str]) -> Vec<String> {
    ls.iter().map(|l| l.to_string()).collect()
}

#[test]
fn recent_list_is_most_recent_first() {
    let c = Completions::new();
    let (_, recent) = build_history(&lines(&["echo a", "ls", "echo b"]), &None, &c);
    assert_eq!(recent, lines(&["echo b", "ls", "echo a"]));
}

#[test]
fn recent_list_dedupes_on_last_occurrence() {
    let c = Completions::new();
    let (_, recent) = build_history(&lines(&["a", "b", "a"]), &None, &c);
    assert_eq!(recent, lines(&["a", "b"]));
}

#[test]
fn recent_list_keeps_ten() {
    let c = Completions::new();
    let many: Vec<String> = (0..15).map(|i| format!("cmd{}", i)).collect();
    let (_, recent) = build_history(&many, &None, &c);
    assert_eq!(recent.len(), 10);
    assert_eq!(recent[0], "cmd14");
    assert_eq!(recent[9], "cmd5");
}

#[test]
fn base_dedupes_and_ranks_by_recency() {
    let c = Completions::new();
    let (base, _) = build_history(&lines(&["grep foo", "grep bar", "grep foo"]), &None, &c);
    let r = base.query("gf", 10);
    // only one "grep foo" comes back, deduplicated
    assert_eq!(r, lines(&["grep foo"]));
    let r2 = base.query("grep", 10);
    // same score; "grep foo" wins on accumulated recency (0 + 2 vs 1)
    assert_eq!(r2, lines(&["grep foo", "grep bar"]));
}

#[test]
fn empty_history_gives_empty_base() {
    let c = Completions::new();
    let (base, recent) = build_history(&lines(&[]), &None, &c);
    assert!(recent.is_empty());
    assert!(base.query("a", 10).is_empty());
}

#[test]
fn completions_bias_beats_recency() {
    let mut c = Completions::new();
    c.add_completion("make test".to_string(), lines(&["proj"]));
    let cwd = Some(lines(&["proj"]));
    let (base, _) = build_history(&lines(&["make test", "make tesa"]), &cwd, &c);
    // both score the same on "ma"; the stored completion lifts "make test"
    // (factor 0 + 10) above the more recent "make tesa" (factor 1)
    let r = base.query("ma", 10);
    assert_eq!(r, lines(&["make test", "make tesa"]));
}
