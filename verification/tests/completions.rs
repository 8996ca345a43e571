use bis2::completions::Completions;

fn path(parts: &[&str]) -> Vec<String> {
    parts.iter().map(|p| p.to_string()).collect()
}

#[test]
fn empty_store_scores_zero() {
    let c = Completions::new();
    assert_eq!(c.get_score(&"ls".to_string(), &path(&["home", "me"])), 0);
}

#[test]
fn exact_path_scores_full_weight() {
    let mut c = Completions::new();
    c.add_completion("make test".to_string(), path(&["proj"]));
    // B = 1, P = 1: (2*1 - 1) * 1 * 10 = 10
    assert_eq!(c.get_score(&"make test".to_string(), &path(&["proj"])), 10);
}

#[test]
fn partial_prefix_formula() {
    let mut c = Completions::new();
    c.add_completion("ls".to_string(), path(&["a", "b", "c"]));
    c.add_completion("ls".to_string(), path(&["a", "b", "c"]));
    // weight 2; query path shares 2 of 3 components: (2*2 - 3) * 2 * 10 = 20
    assert_eq!(c.get_score(&"ls".to_string(), &path(&["a", "b", "d"])), 20);
}

#[test]
fn short_shared_prefix_scores_zero() {
    let mut c = Completions::new();
    c.add_completion("ls".to_string(), path(&["a", "x", "y"]));
    // shares 1 of 3 leading components, fewer than ceil(3/2): zero
    assert_eq!(c.get_score(&"ls".to_string(), &path(&["a", "b", "c"])), 0);
}

#[test]
fn score_never_negative() {
    let mut c = Completions::new();
    c.add_completion("ls".to_string(), path(&["q"]));
    // entirely unrelated deep path still floors at zero
    assert_eq!(c.get_score(&"ls".to_string(), &path(&["a", "b", "c", "d", "e"])), 0);
}

#[test]
fn adding_a_completion_is_monotone() {
    let mut c = Completions::new();
    c.add_completion("ls".to_string(), path(&["a", "b"]));
    let before = c.get_score(&"ls".to_string(), &path(&["a", "b"]));
    c.add_completion("ls".to_string(), path(&["a", "b"]));
    let after = c.get_score(&"ls".to_string(), &path(&["a", "b"]));
    assert!(after >= before);
    assert_eq!(before, 20);
    assert_eq!(after, 40);
}

#[test]
fn unrelated_lines_do_not_interfere() {
    let mut c = Completions::new();
    c.add_completion("ls".to_string(), path(&["a"]));
    assert_eq!(c.get_score(&"pwd".to_string(), &path(&["a"])), 0);
}

#[test]
fn push_entry_restores_saved_weights() {
    let mut c = Completions::new();
    c.push_entry("ls".to_string(), path(&["a"]), 3);
    // B = 1, P = 1: (2 - 1) * 3 * 10 = 30
    assert_eq!(c.get_score(&"ls".to_string(), &path(&["a"])), 30);
}
