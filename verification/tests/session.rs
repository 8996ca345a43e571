use bis2::completions::Completions;
use bis2::event_loop::{UiAction, UiState};
use bis2::events::{Decoder, Event};
use bis2::history::build_history;
use bis2::search::SearchBase;
use bis2::ui::Escape;

fn lines(ls: &[&str]) -> Vec<String> {
    ls.iter().map(|l| l.to_string()).collect()
}

/// A driver in miniature: it owns the search base and the pending events, and
/// it reacts to the state machine's actions the way the real loop does —
/// running queries at once instead of on a pool.
struct Harness {
    ui: UiState,
    base: Option<SearchBase>,
    outputs: Vec<String>,
    injected: Option<String>,
    bells: usize,
    done: bool,
}

impl Harness {
    fn new() -> Harness {
        Harness {
            ui: UiState::create(Escape::create(Vec::new()), 24, 80),
            base: None,
            outputs: Vec::new(),
            injected: None,
            bells: 0,
            done: false,
        }
    }

    fn feed(&mut self, event: Event) {
        let mut pending = vec![event];
        while !pending.is_empty() {
            let ev = pending.remove(0);
            let actions = self.ui.handle_event(ev);
            for a in actions {
                match a {
                    UiAction::Output(s) => self.outputs.push(s),
                    UiAction::DispatchQuery(q) => {
                        if let Some(ref base) = self.base {
                            let result = base.query(q.as_str(), 10);
                            pending.push(Event::Match(result, q));
                        }
                    },
                    UiAction::SendBell => {
                        self.bells += 1;
                        pending.push(Event::Bell);
                    },
                    UiAction::StoreSearch(base) => {
                        self.base = Some(base);
                    },
                    UiAction::StartHistory(_) => {},
                    UiAction::Quit => {
                        self.done = true;
                    },
                }
            }
        }
    }

    fn load_history(&mut self, history: &[&str], cwd: Option<Vec<String>>, c: &Completions) {
        let (base, recent) = build_history(&lines(history), &cwd, c);
        self.feed(Event::HistoryReady(recent));
        self.feed(Event::SearchReady(base));
    }

    fn type_bytes(&mut self, input: &str) {
        let mut dec = Decoder::new();
        for ch in input.chars() {
            for ev in dec.step(ch) {
                self.feed(ev);
            }
        }
    }

    fn finish(&mut self) {
        let farewell = self.ui.exit_output();
        self.outputs.push(farewell);
        if let Some(line) = self.ui.selected_match() {
            self.injected = Some(line.clone());
        }
    }
}

#[test]
fn typing_selects_and_injects_best_match() {
    let mut h = Harness::new();
    h.load_history(&["echo a", "ls", "echo b"], None, &Completions::new());
    h.type_bytes("e\n");
    assert!(h.done);
    h.finish();
    // both echoes match; "echo b" is more recent and ranks first
    assert_eq!(h.injected, Some("echo b".to_string()));
    assert!(h.outputs.last().unwrap().contains(" -> echo b"));
}

#[test]
fn empty_history_injects_nothing() {
    let mut h = Harness::new();
    h.load_history(&[], None, &Completions::new());
    h.type_bytes("\n");
    assert!(h.done);
    h.finish();
    assert_eq!(h.injected, None);
    assert_eq!(h.outputs.last().unwrap(), "\n");
}

#[test]
fn duplicate_history_lines_collapse() {
    let mut h = Harness::new();
    h.load_history(&["grep foo", "grep bar", "grep foo"], None, &Completions::new());
    h.type_bytes("gf\n");
    h.finish();
    assert_eq!(h.injected, Some("grep foo".to_string()));
}

#[test]
fn clear_resets_query_and_shows_recent() {
    let mut h = Harness::new();
    h.load_history(&[], None, &Completions::new());
    h.type_bytes("x");
    // Ctrl-U then newline
    h.type_bytes("\u{15}\n");
    assert!(h.done);
    h.finish();
    assert_eq!(h.injected, None);
}

#[test]
fn keydown_past_the_end_rings_the_bell() {
    let mut h = Harness::new();
    h.load_history(&["ls"], None, &Completions::new());
    h.type_bytes("l");
    assert_eq!(h.bells, 0);
    // one match: moving down is refused with a bell, selection stays put
    let mut dec = Decoder::new();
    for ev in dec.step('\u{1b}') {
        h.feed(ev);
    }
    for ev in dec.step('[') {
        h.feed(ev);
    }
    for ev in dec.step('B') {
        h.feed(ev);
    }
    assert_eq!(h.bells, 1);
    assert_eq!(h.outputs.last().unwrap(), "\u{7}");
    h.type_bytes("\n");
    h.finish();
    assert_eq!(h.injected, Some("ls".to_string()));
}

#[test]
fn completion_record_biases_ranking() {
    let mut c = Completions::new();
    c.add_completion("make test".to_string(), lines(&["proj"]));
    let mut h = Harness::new();
    h.load_history(&["make test", "make tesa"], Some(lines(&["proj"])), &c);
    h.type_bytes("ma\n");
    h.finish();
    assert_eq!(h.injected, Some("make test".to_string()));
}

#[test]
fn stale_match_results_are_dropped() {
    let mut h = Harness::new();
    h.load_history(&["echo a"], None, &Completions::new());
    h.type_bytes("e");
    // a result for a query the user has moved past is ignored
    h.feed(Event::Match(lines(&["stale"]), "x".to_string()));
    h.type_bytes("\n");
    h.finish();
    assert_eq!(h.injected, Some("echo a".to_string()));
}

#[test]
fn backspace_on_empty_query_rings_the_bell() {
    let mut h = Harness::new();
    h.load_history(&[], None, &Completions::new());
    h.type_bytes("\u{8}");
    assert_eq!(h.bells, 1);
}

#[test]
fn typing_before_search_is_ready_dispatches_on_arrival() {
    let mut h = Harness::new();
    // the user types before the base exists: no query can run yet
    h.feed(Event::Input('e'));
    assert!(h.ui.selected_match().is_none());
    // when the base arrives, the pending query runs once
    let (base, recent) = build_history(&lines(&["echo a"]), &None, &Completions::new());
    h.feed(Event::HistoryReady(recent));
    h.feed(Event::SearchReady(base));
    h.type_bytes("\n");
    h.finish();
    assert_eq!(h.injected, Some("echo a".to_string()));
}
