use vstd::prelude::*;

use crate::completions::{CompView, Completions};
use crate::events::Event;
use crate::search::{LineInfoV, SearchBase};
use crate::strutil::{string_pop_char, string_push_char};
use crate::ui::{
    sp_best_match_output, sp_match_down, sp_match_up, sp_matches_output, sp_move_back,
    sp_query_output, sp_render_prompt, Escape, Matches,
};

verus! {

broadcast use vstd::std_specs::vec::vec_clone_deep_view_proof;

/// What the driver must do after one event: write to the terminal, run a
/// query on a worker, put a bell back on the channel, keep the search base
/// for the workers, start the history loader with the completions, or leave
/// the loop.
pub enum UiAction {
    Output(String),
    DispatchQuery(String),
    SendBell,
    StoreSearch(SearchBase),
    StartHistory(Completions),
    Quit,
}

pub open spec fn is_output(a: UiAction, s: Seq<char>) -> bool {
    a matches UiAction::Output(o) && o@ == s
}

pub open spec fn is_dispatch(a: UiAction, q: Seq<char>) -> bool {
    a matches UiAction::DispatchQuery(x) && x@ == q
}

pub open spec fn is_store_search(a: UiAction, b: Seq<LineInfoV>) -> bool {
    a matches UiAction::StoreSearch(x) && x@ == b
}

pub open spec fn is_start_history(a: UiAction, c: CompView) -> bool {
    a matches UiAction::StartHistory(x) && x@ == c
}

/// The UI state the event loop owns.
pub struct UiState {
    escape: Escape,
    rows: u16,
    cols: u16,
    query: String,
    matches: Matches,
    selected: usize,
    recent: Vec<String>,
    success: bool,
    search_ready: bool,
}

pub ghost struct UiV {
    pub escape: Seq<(Seq<char>, Seq<char>)>,
    pub rows: int,
    pub cols: int,
    pub query: Seq<char>,
    pub matches: Seq<Seq<char>>,
    pub selected: int,
    pub recent: Seq<Seq<char>>,
    pub success: bool,
    pub search_ready: bool,
}

impl View for UiState {
    type V = UiV;

    closed spec fn view(&self) -> UiV {
        UiV {
            escape: self.escape@,
            rows: self.rows as int,
            cols: self.cols as int,
            query: self.query@,
            matches: self.matches@,
            selected: self.selected as int,
            recent: self.recent.deep_view(),
            success: self.success,
            search_ready: self.search_ready,
        }
    }
}

/// The fields no event ever changes.
pub open spec fn ui_frame(a: UiV, b: UiV) -> bool {
    a.escape == b.escape && a.rows == b.rows && a.cols == b.cols
}

impl UiState {
    pub fn create(escape: Escape, rows: u16, cols: u16) -> (r: UiState)
        ensures
            r@.escape == escape@,
            r@.rows == rows as int,
            r@.cols == cols as int,
            r@.query == Seq::<char>::empty(),
            r@.matches == Seq::<Seq<char>>::empty(),
            r@.selected == 0,
            r@.recent == Seq::<Seq<char>>::empty(),
            r@.success == false,
            r@.search_ready == false,
    {
        let r = UiState {
            escape,
            rows,
            cols,
            query: String::new(),
            matches: Matches::new(Vec::new()),
            selected: 0,
            recent: Vec::new(),
            success: false,
            search_ready: false,
        };
        proof {
            assert(r@.matches =~= Seq::<Seq<char>>::empty());
            assert(r@.recent =~= Seq::<Seq<char>>::empty());
        }
        r
    }

    /// The opening fragment the driver writes before any event.
    pub fn initial_output(&self) -> (r: String)
        requires
            self@.rows >= 1,
        ensures
            r@ == sp_render_prompt(self@.escape, self@.rows),
    {
        self.escape.render_prompt(self.rows as usize)
    }

    /// One event, by the book: the state changes and the actions fall out in
    /// order.
    pub fn handle_event(&mut self, event: Event) -> (r: Vec<UiAction>)
        ensures
            ui_frame(old(self)@, final(self)@),
            match event {
                Event::CompletionsReady(c) => final(self)@ == old(self)@ && r@.len() == 1
                    && is_start_history(r@[0], c@),
                Event::HistoryReady(recent) => {
                    &&& final(self)@.recent == recent.deep_view()
                    &&& final(self)@.query == old(self)@.query
                    &&& final(self)@.success == old(self)@.success
                    &&& final(self)@.search_ready == old(self)@.search_ready
                    &&& if old(self)@.query.len() == 0 {
                        &&& final(self)@.matches == recent.deep_view()
                        &&& final(self)@.selected == 0
                        &&& r@.len() == 1
                        &&& is_output(
                            r@[0],
                            sp_matches_output(
                                old(self)@.escape,
                                recent.deep_view(),
                                old(self)@.cols as nat,
                                0,
                            ),
                        )
                    } else {
                        &&& final(self)@.matches == old(self)@.matches
                        &&& final(self)@.selected == old(self)@.selected
                        &&& r@.len() == 0
                    }
                },
                Event::SearchReady(base) => {
                    &&& final(self)@ == UiV { search_ready: true, ..old(self)@ }
                    &&& if old(self)@.query.len() > 0 {
                        r@.len() == 2 && is_store_search(r@[0], base@) && is_dispatch(
                            r@[1],
                            old(self)@.query,
                        )
                    } else {
                        r@.len() == 1 && is_store_search(r@[0], base@)
                    }
                },
                Event::Input(chr) => {
                    &&& final(self)@ == UiV { query: old(self)@.query.push(chr), ..old(self)@ }
                    &&& is_output(r@[0], sp_query_output(old(self)@.escape, chr))
                    &&& if old(self)@.search_ready {
                        r@.len() == 2 && is_dispatch(r@[1], old(self)@.query.push(chr))
                    } else {
                        r@.len() == 1
                    }
                },
                Event::Match(matches, q) => {
                    if q@ == old(self)@.query {
                        &&& final(self)@ == UiV {
                            matches: matches.deep_view(),
                            selected: 0,
                            ..old(self)@
                        }
                        &&& r@.len() == 1
                        &&& is_output(
                            r@[0],
                            sp_matches_output(
                                old(self)@.escape,
                                matches.deep_view(),
                                old(self)@.cols as nat,
                                0,
                            ),
                        )
                    } else {
                        final(self)@ == old(self)@ && r@.len() == 0
                    }
                },
                Event::KeyDown => {
                    if old(self)@.selected + 1 < old(self)@.matches.len() {
                        &&& final(self)@ == UiV {
                            selected: old(self)@.selected + 1,
                            ..old(self)@
                        }
                        &&& r@.len() == 1
                        &&& is_output(
                            r@[0],
                            sp_match_down(
                                old(self)@.escape,
                                old(self)@.matches,
                                old(self)@.cols as nat,
                                old(self)@.selected + 1,
                            ),
                        )
                    } else {
                        final(self)@ == old(self)@ && r@.len() == 1 && r@[0] is SendBell
                    }
                },
                Event::KeyUp => {
                    if old(self)@.selected > 0 {
                        &&& final(self)@ == UiV {
                            selected: old(self)@.selected - 1,
                            ..old(self)@
                        }
                        &&& r@.len() == 1
                        &&& is_output(
                            r@[0],
                            sp_match_up(
                                old(self)@.escape,
                                old(self)@.matches,
                                old(self)@.cols as nat,
                                old(self)@.selected - 1,
                            ),
                        )
                    } else {
                        final(self)@ == old(self)@ && r@.len() == 1 && r@[0] is SendBell
                    }
                },
                Event::Clear => {
                    if old(self)@.query.len() > 0 {
                        &&& final(self)@ == UiV {
                            query: Seq::<char>::empty(),
                            matches: old(self)@.recent,
                            selected: 0,
                            ..old(self)@
                        }
                        &&& r@.len() == 2
                        &&& is_output(
                            r@[0],
                            sp_move_back(old(self)@.escape, old(self)@.query.len() as int),
                        )
                        &&& is_output(
                            r@[1],
                            sp_matches_output(
                                old(self)@.escape,
                                old(self)@.recent,
                                old(self)@.cols as nat,
                                0,
                            ),
                        )
                    } else {
                        final(self)@ == old(self)@ && r@.len() == 1 && r@[0] is SendBell
                    }
                },
                Event::Backspace => {
                    if old(self)@.query.len() > 0 {
                        &&& is_output(r@[0], sp_move_back(old(self)@.escape, 1))
                        &&& if old(self)@.query.len() > 1 {
                            &&& final(self)@ == UiV {
                                query: old(self)@.query.drop_last(),
                                ..old(self)@
                            }
                            &&& if old(self)@.search_ready {
                                r@.len() == 2 && is_dispatch(r@[1], old(self)@.query.drop_last())
                            } else {
                                r@.len() == 1
                            }
                        } else {
                            &&& final(self)@ == UiV {
                                query: Seq::<char>::empty(),
                                matches: old(self)@.recent,
                                ..old(self)@
                            }
                            &&& r@.len() == 2
                            &&& is_output(
                                r@[1],
                                sp_matches_output(
                                    old(self)@.escape,
                                    old(self)@.recent,
                                    old(self)@.cols as nat,
                                    old(self)@.selected,
                                ),
                            )
                        }
                    } else {
                        final(self)@ == old(self)@ && r@.len() == 1 && r@[0] is SendBell
                    }
                },
                Event::Bell => final(self)@ == old(self)@ && r@.len() == 1 && is_output(
                    r@[0],
                    seq!['\u{7}'],
                ),
                Event::Quit(s) => final(self)@ == UiV { success: s, ..old(self)@ } && r@.len() == 1
                    && r@[0] is Quit,
            },
    {
        let mut actions: Vec<UiAction> = Vec::new();
        match event {
            Event::CompletionsReady(completions) => {
                actions.push(UiAction::StartHistory(completions));
            },
            Event::HistoryReady(recent) => {
                self.recent = recent;
                if self.query.as_str().unicode_len() == 0 {
                    self.matches = Matches::new(self.recent.clone());
                    self.selected = 0;
                    let out = self.escape.matches_output(
                        &self.matches,
                        self.cols as usize,
                        self.selected,
                    );
                    actions.push(UiAction::Output(out));
                }
            },
            Event::SearchReady(base) => {
                self.search_ready = true;
                actions.push(UiAction::StoreSearch(base));
                if self.query.as_str().unicode_len() > 0 {
                    actions.push(UiAction::DispatchQuery(self.query.clone()));
                }
            },
            Event::Input(chr) => {
                string_push_char(&mut self.query, chr);
                let out = self.escape.query_output(chr);
                actions.push(UiAction::Output(out));
                if self.search_ready {
                    actions.push(UiAction::DispatchQuery(self.query.clone()));
                }
            },
            Event::Match(matches, q) => {
                if q == self.query {
                    self.selected = 0;
                    self.matches = Matches::new(matches);
                    let out = self.escape.matches_output(
                        &self.matches,
                        self.cols as usize,
                        self.selected,
                    );
                    actions.push(UiAction::Output(out));
                }
            },
            Event::KeyDown => {
                let len = self.matches.len();
                if self.selected < len && len - self.selected > 1 {
                    self.selected = self.selected + 1;
                    let out = self.escape.match_down(
                        &self.matches,
                        self.cols as usize,
                        self.selected,
                    );
                    actions.push(UiAction::Output(out));
                } else {
                    actions.push(UiAction::SendBell);
                }
            },
            Event::KeyUp => {
                if self.selected > 0 {
                    self.selected = self.selected - 1;
                    let out = self.escape.match_up(
                        &self.matches,
                        self.cols as usize,
                        self.selected,
                    );
                    actions.push(UiAction::Output(out));
                } else {
                    actions.push(UiAction::SendBell);
                }
            },
            Event::Clear => {
                let qlen = self.query.as_str().unicode_len();
                if qlen > 0 {
                    actions.push(UiAction::Output(self.escape.move_back(qlen)));
                    self.query = String::new();
                    self.matches = Matches::new(self.recent.clone());
                    self.selected = 0;
                    let out = self.escape.matches_output(
                        &self.matches,
                        self.cols as usize,
                        self.selected,
                    );
                    actions.push(UiAction::Output(out));
                } else {
                    actions.push(UiAction::SendBell);
                }
            },
            Event::Backspace => {
                let qlen = self.query.as_str().unicode_len();
                if qlen > 0 {
                    string_pop_char(&mut self.query);
                    proof {
                        if old(self)@.query.len() == 1 {
                            assert(self.query@ =~= Seq::<char>::empty());
                        }
                    }
                    actions.push(UiAction::Output(self.escape.move_back(1)));
                    if qlen > 1 {
                        if self.search_ready {
                            actions.push(UiAction::DispatchQuery(self.query.clone()));
                        }
                    } else {
                        self.matches = Matches::new(self.recent.clone());
                        let out = self.escape.matches_output(
                            &self.matches,
                            self.cols as usize,
                            self.selected,
                        );
                        actions.push(UiAction::Output(out));
                    }
                } else {
                    actions.push(UiAction::SendBell);
                }
            },
            Event::Bell => {
                actions.push(UiAction::Output(self.escape.bell()));
            },
            Event::Quit(success) => {
                self.success = success;
                actions.push(UiAction::Quit);
            },
        }
        actions
    }

    /// The farewell fragment the driver writes after the loop.
    pub fn exit_output(&self) -> (r: String)
        ensures
            r@ == sp_best_match_output(
                self@.escape,
                self@.matches,
                self@.selected,
                self@.query.len() == 0,
            ),
    {
        let recent = self.query.as_str().unicode_len() == 0;
        self.escape.best_match_output(&self.matches, self.selected, recent)
    }

    /// The line to hand back to the shell: the selected match, on a
    /// confirmed exit only.
    pub fn selected_match(&self) -> (r: Option<&String>)
        ensures
            match r {
                Some(s) => self@.success && self@.selected < self@.matches.len() && s@
                    == self@.matches[self@.selected],
                None => !self@.success || self@.selected >= self@.matches.len(),
            },
    {
        if !self.success {
            return None;
        }
        match self.matches.get(self.selected) {
            Some(line) => Some(line.get()),
            None => None,
        }
    }
}

} // verus!
