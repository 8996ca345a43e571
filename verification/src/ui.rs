use vstd::prelude::*;

use crate::strutil::{dec_chars, push_dec_i64, string_pop_char, string_push_char};

verus! {

/// What `unicode_width` reports as the displayed column count of a string: a
/// function of the characters alone.
pub uninterp spec fn display_width(s: Seq<char>) -> nat;

/// Relies on unicode_width's `UnicodeWidthStr::width`: the displayed column
/// count depends on the characters alone, and an empty string has none.
#[verifier::external_body]
fn str_width(s: &String) -> (r: usize)
    ensures
        r as nat == display_width(s@),
        s@.len() == 0 ==> r == 0,
{
    unicode_width::UnicodeWidthStr::width(s.as_str())
}

/// The length of the longest prefix of `s` whose displayed width fits in
/// `size` columns, counting from the whole string down.
pub open spec fn trunc_len(s: Seq<char>, size: nat) -> int
    decreases s.len(),
{
    if display_width(s) <= size {
        s.len() as int
    } else if s.len() == 0 {
        0
    } else {
        trunc_len(s.drop_last(), size)
    }
}

pub open spec fn truncate_to(s: Seq<char>, size: nat) -> Seq<char> {
    s.take(trunc_len(s, size))
}

/// Pop characters from the right until the string fits in `size` columns.
fn truncate_string(s: &mut String, size: usize)
    ensures
        final(s)@ == truncate_to(old(s)@, size as nat),
    decreases old(s)@.len(),
{
    let w = str_width(s);
    if w <= size {
        proof {
            assert(truncate_to(s@, size as nat) =~= s@);
        }
        return ;
    }
    string_pop_char(s);
    truncate_string(s, size);
    proof {
        lemma_trunc_len_bounds(old(s)@.drop_last(), size as nat);
        assert(trunc_len(old(s)@, size as nat) == trunc_len(old(s)@.drop_last(), size as nat));
        assert(truncate_to(old(s)@, size as nat) =~= truncate_to(
            old(s)@.drop_last(),
            size as nat,
        ));
    }
}

proof fn lemma_trunc_len_bounds(s: Seq<char>, size: nat)
    ensures
        0 <= trunc_len(s, size) <= s.len(),
    decreases s.len(),
{
    if !(display_width(s) <= size) && s.len() > 0 {
        lemma_trunc_len_bounds(s.drop_last(), size);
    }
}

/// One displayed match row: a newline, the selection arrow when selected,
/// then the line itself.
pub open spec fn rendered_line(l: Seq<char>, selected: bool) -> Seq<char> {
    if selected {
        "\n"@ + "-> "@ + l
    } else {
        "\n"@ + l
    }
}

/// A match list row as displayed.
pub struct Line {
    line: String,
}

impl View for Line {
    type V = Seq<char>;

    closed spec fn view(&self) -> Seq<char> {
        self.line@
    }
}

impl Line {
    pub fn new(line: String) -> (r: Line)
        ensures
            r@ == line@,
    {
        Line { line }
    }

    pub fn get(&self) -> (r: &String)
        ensures
            r@ == self@,
    {
        &self.line
    }

    /// The row as rendered: arrow when selected, truncated from the right
    /// until it fits the given width.
    pub fn render(&self, width: Option<usize>, selected: bool) -> (r: String)
        ensures
            r@ == match width {
                None => rendered_line(self@, selected),
                Some(size) => truncate_to(rendered_line(self@, selected), size as nat),
            },
    {
        let mut result = String::new();
        result.append("\n");
        if selected {
            result.append("-> ");
        }
        result.append(self.line.as_str());
        proof {
            if selected {
                assert(result@ =~= rendered_line(self@, true));
            } else {
                assert(result@ =~= rendered_line(self@, false));
            }
        }
        match width {
            None => result,
            Some(size) => {
                let mut out = result;
                truncate_string(&mut out, size);
                out
            },
        }
    }
}

/// The rendering of the first `k` rows, selection arrow on row `selected`.
pub open spec fn matches_render_upto(
    ls: Seq<Seq<char>>,
    size: nat,
    selected: int,
    k: int,
) -> Seq<char>
    decreases k,
{
    if k <= 0 {
        Seq::empty()
    } else {
        matches_render_upto(ls, size, selected, k - 1) + truncate_to(
            rendered_line(ls[k - 1], k - 1 == selected),
            size,
        )
    }
}

pub open spec fn sp_matches_render(ls: Seq<Seq<char>>, size: nat, selected: int) -> Seq<char> {
    matches_render_upto(ls, size, selected, ls.len() as int)
}

/// The current match list.
pub struct Matches {
    matches: Vec<Line>,
}

impl View for Matches {
    type V = Seq<Seq<char>>;

    closed spec fn view(&self) -> Seq<Seq<char>> {
        Seq::new(self.matches@.len(), |i: int| self.matches@[i]@)
    }
}

impl Matches {
    pub fn new(lines: Vec<String>) -> (r: Matches)
        ensures
            r@ == lines.deep_view(),
    {
        let mut matches: Vec<Line> = Vec::new();
        let n = lines.len();
        let mut i: usize = 0;
        while i < n
            invariant
                i <= n,
                n == lines@.len(),
                matches@.len() == i,
                forall|j: int| 0 <= j < i ==> (#[trigger] matches@[j])@ == lines.deep_view()[j],
            decreases n - i,
        {
            matches.push(Line::new(lines[i].clone()));
            i += 1;
        }
        let r = Matches { matches };
        proof {
            assert(r@ =~= lines.deep_view());
        }
        r
    }

    pub fn len(&self) -> (r: usize)
        ensures
            r == self@.len(),
    {
        self.matches.len()
    }

    pub fn get(&self, selected: usize) -> (r: Option<&Line>)
        ensures
            match r {
                Some(l) => selected < self@.len() && l@ == self@[selected as int],
                None => selected >= self@.len(),
            },
    {
        if selected < self.matches.len() {
            Some(&self.matches[selected])
        } else {
            None
        }
    }

    /// Render every row, each truncated to the window width, the selected one
    /// with the arrow.
    #[verifier::loop_isolation(false)]
    pub fn render(&self, width: usize, selected: usize) -> (r: String)
        ensures
            r@ == sp_matches_render(self@, width as nat, selected as int),
    {
        let mut result = String::new();
        let n = self.matches.len();
        let mut i: usize = 0;
        while i < n
            invariant
                i <= n,
                result@ == matches_render_upto(self@, width as nat, selected as int, i as int),
            decreases n - i,
        {
            let piece = self.matches[i].render(Some(width), i == selected);
            result.append(piece.as_str());
            proof {
                assert(self.matches@[i as int]@ == self@[i as int]);
            }
            i += 1;
        }
        result
    }
}

/// One value on the tiny parameter stack of the capability expander.
pub enum TermStack {
    Str(String),
    Int(i64),
    Bool(bool),
}

impl TermStack {
    /// An equal value.
    pub fn duplicate(&self) -> (r: TermStack)
        ensures
            r == *self,
    {
        match self {
            TermStack::Str(s) => TermStack::Str(s.clone()),
            TermStack::Int(v) => TermStack::Int(*v),
            TermStack::Bool(b) => TermStack::Bool(*b),
        }
    }
}

/// The expander's running state: whether a `%` is pending, the escape name
/// collected after it, the parameter stack, and the output so far.
pub ghost struct ExpState {
    pub escaped: bool,
    pub escape: Seq<char>,
    pub stack: Seq<TermStack>,
    pub result: Seq<char>,
}

/// One character of a capability string: `%%`-style escapes push parameters
/// (`%p1` to `%p9`) and print decimals (`%d`); anything unknown is dropped;
/// every other character is output as it stands.
pub open spec fn exp_step(st: ExpState, c: char, params: Seq<TermStack>) -> ExpState {
    if !st.escaped {
        if c == '%' {
            ExpState { escaped: true, ..st }
        } else {
            ExpState { result: st.result.push(c), ..st }
        }
    } else if st.escape.len() == 0 {
        if c == '%' {
            ExpState { escaped: false, result: st.result.push('%'), ..st }
        } else if c == 'd' {
            if st.stack.len() > 0 {
                let rest = st.stack.drop_last();
                match st.stack.last() {
                    TermStack::Int(v) => ExpState {
                        escaped: false,
                        stack: rest,
                        result: st.result + dec_chars(v as int),
                        ..st
                    },
                    _ => ExpState { escaped: false, stack: rest, ..st },
                }
            } else {
                ExpState { escaped: false, ..st }
            }
        } else if c == 'p' {
            ExpState { escape: seq!['p'], ..st }
        } else {
            ExpState { escaped: false, ..st }
        }
    } else {
        let st2 = ExpState { escaped: false, escape: Seq::empty(), ..st };
        if st.escape == seq!['p'] {
            if 49 <= c as u32 && c as u32 <= 57 {
                let idx = (c as u32 - 48) as int;
                if idx - 1 < params.len() {
                    ExpState { stack: st.stack.push(params[idx - 1]), ..st2 }
                } else {
                    st2
                }
            } else {
                st2
            }
        } else {
            st2
        }
    }
}

pub open spec fn exp_init() -> ExpState {
    ExpState {
        escaped: false,
        escape: Seq::empty(),
        stack: Seq::empty(),
        result: Seq::empty(),
    }
}

pub open spec fn exp_run(src: Seq<char>, params: Seq<TermStack>, k: int) -> ExpState
    decreases k,
{
    if k <= 0 {
        exp_init()
    } else {
        exp_step(exp_run(src, params, k - 1), src[k - 1], params)
    }
}

/// A capability string expanded against its parameters.
pub open spec fn expand_cap(src: Seq<char>, params: Seq<TermStack>) -> Seq<char> {
    exp_run(src, params, src.len() as int).result
}

/// The capability source stored under `name`, if any.
pub open spec fn esc_lookup(ev: Seq<(Seq<char>, Seq<char>)>, name: Seq<char>) -> Option<Seq<char>>
    decreases ev.len(),
{
    if ev.len() == 0 {
        None
    } else if ev[0].0 == name {
        Some(ev[0].1)
    } else {
        esc_lookup(ev.drop_first(), name)
    }
}

/// What the terminal is sent for capability `name`: its expansion, or nothing
/// when the terminal does not know it.
pub open spec fn cap_out(
    ev: Seq<(Seq<char>, Seq<char>)>,
    name: Seq<char>,
    params: Seq<TermStack>,
) -> Seq<char> {
    match esc_lookup(ev, name) {
        Some(src) => expand_cap(src, params),
        None => Seq::empty(),
    }
}

pub open spec fn newlines(n: int) -> Seq<char> {
    if n <= 0 {
        Seq::empty()
    } else {
        Seq::new(n as nat, |i: int| '\n')
    }
}

pub open spec fn clamp_param(n: int) -> int {
    if n <= i64::MAX as int {
        n
    } else {
        i64::MAX as int
    }
}

pub open spec fn sp_cursor_up(ev: Seq<(Seq<char>, Seq<char>)>, by: int) -> Seq<char> {
    cap_out(ev, "cuu"@, seq![TermStack::Int(clamp_param(by) as i64)])
}

pub open spec fn sp_save_cursor(ev: Seq<(Seq<char>, Seq<char>)>) -> Seq<char> {
    cap_out(ev, "sc"@, Seq::empty())
}

pub open spec fn sp_restore_cursor(ev: Seq<(Seq<char>, Seq<char>)>) -> Seq<char> {
    cap_out(ev, "rc"@, Seq::empty())
}

pub open spec fn sp_clear_screen(ev: Seq<(Seq<char>, Seq<char>)>) -> Seq<char> {
    cap_out(ev, "ed"@, Seq::empty())
}

pub open spec fn sp_clear_line(ev: Seq<(Seq<char>, Seq<char>)>) -> Seq<char> {
    cap_out(ev, "el"@, Seq::empty())
}

pub open spec fn sp_make_space(ev: Seq<(Seq<char>, Seq<char>)>, rows: int) -> Seq<char> {
    let number = if 10 <= rows - 1 {
        10int
    } else {
        rows - 1
    };
    newlines(number) + sp_cursor_up(ev, number)
}

pub open spec fn sp_move_back(ev: Seq<(Seq<char>, Seq<char>)>, by: int) -> Seq<char> {
    cap_out(ev, "cub"@, seq![TermStack::Int(clamp_param(by) as i64)]) + sp_save_cursor(ev)
        + sp_clear_screen(ev)
}

pub open spec fn sp_query_output(ev: Seq<(Seq<char>, Seq<char>)>, chr: char) -> Seq<char> {
    seq![chr] + sp_save_cursor(ev) + sp_clear_screen(ev)
}

pub open spec fn sp_matches_output(
    ev: Seq<(Seq<char>, Seq<char>)>,
    ls: Seq<Seq<char>>,
    width: nat,
    selected: int,
) -> Seq<char> {
    sp_clear_screen(ev) + sp_matches_render(ls, width, selected) + sp_restore_cursor(ev)
}

pub open spec fn sp_match_down(
    ev: Seq<(Seq<char>, Seq<char>)>,
    ls: Seq<Seq<char>>,
    width: nat,
    selected: int,
) -> Seq<char> {
    if selected < ls.len() {
        newlines(selected - 1) + truncate_to(rendered_line(ls[selected - 1], false), width)
            + sp_clear_line(ev) + truncate_to(rendered_line(ls[selected], true), width)
            + sp_clear_line(ev) + sp_restore_cursor(ev)
    } else {
        Seq::empty()
    }
}

pub open spec fn sp_match_up(
    ev: Seq<(Seq<char>, Seq<char>)>,
    ls: Seq<Seq<char>>,
    width: nat,
    selected: int,
) -> Seq<char> {
    if selected + 1 < ls.len() {
        newlines(selected) + truncate_to(rendered_line(ls[selected], true), width)
            + sp_clear_line(ev) + truncate_to(rendered_line(ls[selected + 1], false), width)
            + sp_clear_line(ev) + sp_restore_cursor(ev)
    } else {
        Seq::empty()
    }
}

pub open spec fn sp_best_match_output(
    ev: Seq<(Seq<char>, Seq<char>)>,
    ls: Seq<Seq<char>>,
    selected: int,
    recent: bool,
) -> Seq<char> {
    if 0 <= selected < ls.len() {
        (if recent {
            "recent"@
        } else {
            Seq::empty()
        }) + " -> "@ + ls[selected] + "\n"@ + sp_clear_screen(ev)
    } else {
        "\n"@ + sp_clear_screen(ev)
    }
}

pub open spec fn sp_render_prompt(ev: Seq<(Seq<char>, Seq<char>)>, rows: int) -> Seq<char> {
    sp_make_space(ev, rows) + "Match: "@ + sp_save_cursor(ev) + sp_clear_screen(ev)
}

/// The terminfo-driven renderer: the terminal's string capabilities, looked
/// up by name and expanded against parameters.
pub struct Escape {
    strings: Vec<(String, String)>,
}

impl View for Escape {
    type V = Seq<(Seq<char>, Seq<char>)>;

    closed spec fn view(&self) -> Seq<(Seq<char>, Seq<char>)> {
        Seq::new(self.strings@.len(), |i: int| (self.strings@[i].0@, self.strings@[i].1@))
    }
}

impl Escape {
    /// Build the renderer from the terminal's capability strings, as a
    /// name-to-source list.
    pub fn create(strings: Vec<(String, String)>) -> (r: Escape)
        ensures
            r@ == Seq::new(strings@.len(), |i: int| (strings@[i].0@, strings@[i].1@)),
    {
        let r = Escape { strings };
        proof {
            assert(r@ =~= Seq::new(r.strings@.len(), |i: int| (r.strings@[i].0@, r.strings@[
                i].1@)));
        }
        r
    }

    /// Look up a capability and expand it; `None` when the terminal lacks it.
    #[verifier::loop_isolation(false)]
    pub fn get_string(&self, name: &String, params: &Vec<TermStack>) -> (r: Option<String>)
        ensures
            match r {
                Some(out) => esc_lookup(self@, name@) is Some && out@ == expand_cap(
                    esc_lookup(self@, name@).unwrap(),
                    params@,
                ),
                None => esc_lookup(self@, name@) is None,
            },
    {
        let n = self.strings.len();
        let mut j: usize = 0;
        let mut src_idx = n;
        while j < n
            invariant
                j <= n,
                src_idx == n,
                forall|a: int| 0 <= a < j ==> (#[trigger] self@[a]).0 != name@,
            decreases n - j,
        {
            if self.strings[j].0 == *name {
                proof {
                    assert(self@[j as int].0 == name@);
                    lemma_esc_lookup_at(self@, name@, j as int);
                }
                return Some(self.expand(j, params));
            }
            proof {
                assert(self@[j as int].0 == self.strings@[j as int].0@);
            }
            j += 1;
        }
        proof {
            lemma_esc_lookup_absent(self@, name@);
        }
        None
    }

    /// Run the parameterized-string automaton over one capability source.
    #[verifier::loop_isolation(false)]
    fn expand(&self, j: usize, params: &Vec<TermStack>) -> (r: String)
        requires
            j < self@.len(),
        ensures
            r@ == expand_cap(self@[j as int].1, params@),
    {
        let src = &self.strings[j].1;
        let ghost sv = self@[j as int].1;
        proof {
            assert(sv == src@);
        }
        let n = src.as_str().unicode_len();
        let mut escaped = false;
        let mut escape: Vec<char> = Vec::new();
        let mut stack: Vec<TermStack> = Vec::new();
        let mut result = String::new();

        let mut k: usize = 0;
        while k < n
            invariant
                k <= n,
                n == sv.len(),
                escaped == exp_run(sv, params@, k as int).escaped,
                escape@ == exp_run(sv, params@, k as int).escape,
                stack@ == exp_run(sv, params@, k as int).stack,
                result@ == exp_run(sv, params@, k as int).result,
            decreases n - k,
        {
            let c = src.as_str().get_char(k);
            let ghost st = exp_run(sv, params@, k as int);
            if !escaped {
                if c == '%' {
                    escaped = true;
                } else {
                    string_push_char(&mut result, c);
                }
            } else if escape.len() == 0 {
                if c == '%' {
                    string_push_char(&mut result, '%');
                    escaped = false;
                } else if c == 'd' {
                    match stack.pop() {
                        Some(TermStack::Int(v)) => {
                            push_dec_i64(&mut result, v);
                        },
                        Some(_) => {},
                        None => {},
                    }
                    escaped = false;
                } else if c == 'p' {
                    escape.push('p');
                    proof {
                        assert(escape@ =~= seq!['p']);
                    }
                } else {
                    escaped = false;
                }
            } else {
                proof {
                    assert(escape@ == st.escape);
                }
                if escape.len() == 1 && escape[0] == 'p' {
                    proof {
                        assert(st.escape =~= seq!['p']);
                    }
                    let code = c as u32;
                    if 49 <= code && code <= 57 {
                        let idx = (code - 48) as usize;
                        if idx - 1 < params.len() {
                            stack.push(params[idx - 1].duplicate());
                        }
                    }
                } else {
                    proof {
                        assert(st.escape != seq!['p']) by {
                            if escape@.len() == 1 {
                                assert(escape@[0] != 'p');
                            }
                        }
                    }
                }
                escape = Vec::new();
                escaped = false;
                proof {
                    assert(escape@ =~= Seq::<char>::empty());
                }
            }
            k += 1;
        }
        result
    }

    fn cursor_up(&self, by: usize) -> (r: String)
        ensures
            r@ == sp_cursor_up(self@, by as int),
    {
        let v: i64 = if (by as u64) > (i64::MAX as u64) {
            i64::MAX
        } else {
            by as i64
        };
        let mut params: Vec<TermStack> = Vec::new();
        params.push(TermStack::Int(v));
        proof {
            assert(params@ =~= seq![TermStack::Int(clamp_param(by as int) as i64)]);
        }
        match self.get_string(&String::from_str("cuu"), &params) {
            Some(s) => s,
            None => String::new(),
        }
    }

    pub fn restore_cursor(&self) -> (r: String)
        ensures
            r@ == sp_restore_cursor(self@),
    {
        let params: Vec<TermStack> = Vec::new();
        match self.get_string(&String::from_str("rc"), &params) {
            Some(s) => s,
            None => String::new(),
        }
    }

    pub fn save_cursor(&self) -> (r: String)
        ensures
            r@ == sp_save_cursor(self@),
    {
        let params: Vec<TermStack> = Vec::new();
        match self.get_string(&String::from_str("sc"), &params) {
            Some(s) => s,
            None => String::new(),
        }
    }

    pub fn clear_screen(&self) -> (r: String)
        ensures
            r@ == sp_clear_screen(self@),
    {
        let params: Vec<TermStack> = Vec::new();
        match self.get_string(&String::from_str("ed"), &params) {
            Some(s) => s,
            None => String::new(),
        }
    }

    fn clear_line(&self) -> (r: String)
        ensures
            r@ == sp_clear_line(self@),
    {
        let params: Vec<TermStack> = Vec::new();
        match self.get_string(&String::from_str("el"), &params) {
            Some(s) => s,
            None => String::new(),
        }
    }

    /// Reserve room for the match list: newlines for each row, then back up.
    pub fn make_space(&self, rows: usize) -> (r: String)
        requires
            rows >= 1,
        ensures
            r@ == sp_make_space(self@, rows as int),
    {
        let number: usize = if 10 <= rows - 1 {
            10
        } else {
            rows - 1
        };
        let mut out = String::new();
        let mut i: usize = 0;
        while i < number
            invariant
                i <= number,
                out@ =~= newlines(i as int),
            decreases number - i,
        {
            string_push_char(&mut out, '\n');
            proof {
                assert(out@ =~= newlines(i + 1));
            }
            i += 1;
        }
        let up = self.cursor_up(number);
        out.append(up.as_str());
        out
    }

    pub fn move_back(&self, by: usize) -> (r: String)
        ensures
            r@ == sp_move_back(self@, by as int),
    {
        let v: i64 = if (by as u64) > (i64::MAX as u64) {
            i64::MAX
        } else {
            by as i64
        };
        let mut params: Vec<TermStack> = Vec::new();
        params.push(TermStack::Int(v));
        proof {
            assert(params@ =~= seq![TermStack::Int(clamp_param(by as int) as i64)]);
        }
        let mut out = match self.get_string(&String::from_str("cub"), &params) {
            Some(s) => s,
            None => String::new(),
        };
        out.append(self.save_cursor().as_str());
        out.append(self.clear_screen().as_str());
        out
    }

    /// Echo a typed character and mark the new cursor position.
    pub fn query_output(&self, chr: char) -> (r: String)
        ensures
            r@ == sp_query_output(self@, chr),
    {
        let mut out = String::new();
        string_push_char(&mut out, chr);
        proof {
            assert(out@ =~= seq![chr]);
        }
        out.append(self.save_cursor().as_str());
        out.append(self.clear_screen().as_str());
        out
    }

    /// Redraw the whole match list.
    pub fn matches_output(&self, matches: &Matches, width: usize, selected: usize) -> (r: String)
        ensures
            r@ == sp_matches_output(self@, matches@, width as nat, selected as int),
    {
        let mut out = self.clear_screen();
        out.append(matches.render(width, selected).as_str());
        out.append(self.restore_cursor().as_str());
        out
    }

    /// Move the selection arrow one row down, redrawing only the two rows
    /// involved.
    pub fn match_down(&self, matches: &Matches, width: usize, selected: usize) -> (r: String)
        requires
            selected >= 1,
        ensures
            r@ == sp_match_down(self@, matches@, width as nat, selected as int),
    {
        let mut out = String::new();
        let mut i: usize = 0;
        let steps = selected - 1;
        while i < steps
            invariant
                i <= steps,
                out@ =~= newlines(i as int),
            decreases steps - i,
        {
            string_push_char(&mut out, '\n');
            proof {
                assert(out@ =~= newlines(i + 1));
            }
            i += 1;
        }
        match matches.get(selected - 1) {
            None => {
                return String::new();
            },
            Some(line) => {
                out.append(line.render(Some(width), false).as_str());
                out.append(self.clear_line().as_str());
            },
        }
        match matches.get(selected) {
            None => {
                return String::new();
            },
            Some(line) => {
                out.append(line.render(Some(width), true).as_str());
                out.append(self.clear_line().as_str());
            },
        }
        out.append(self.restore_cursor().as_str());
        out
    }

    /// Move the selection arrow one row up, redrawing only the two rows
    /// involved.
    pub fn match_up(&self, matches: &Matches, width: usize, selected: usize) -> (r: String)
        ensures
            r@ == sp_match_up(self@, matches@, width as nat, selected as int),
    {
        let mut out = String::new();
        let mut i: usize = 0;
        while i < selected
            invariant
                i <= selected,
                out@ =~= newlines(i as int),
            decreases selected - i,
        {
            string_push_char(&mut out, '\n');
            proof {
                assert(out@ =~= newlines(i + 1));
            }
            i += 1;
        }
        let n = matches.len();
        if selected >= n || n - selected < 2 {
            return String::new();
        }
        match matches.get(selected) {
            None => {
                return String::new();
            },
            Some(line) => {
                out.append(line.render(Some(width), true).as_str());
                out.append(self.clear_line().as_str());
            },
        }
        match matches.get(selected + 1) {
            None => {
                return String::new();
            },
            Some(line) => {
                out.append(line.render(Some(width), false).as_str());
                out.append(self.clear_line().as_str());
            },
        }
        out.append(self.restore_cursor().as_str());
        out
    }

    /// The farewell fragment: the chosen line, marked as coming from the
    /// recent list when the query was empty.
    pub fn best_match_output(&self, matches: &Matches, selected: usize, recent: bool) -> (r:
        String)
        ensures
            r@ == sp_best_match_output(self@, matches@, selected as int, recent),
    {
        match matches.get(selected) {
            None => {
                let mut out = String::new();
                out.append("\n");
                out.append(self.clear_screen().as_str());
                proof {
                    assert(out@ =~= "\n"@ + sp_clear_screen(self@));
                }
                out
            },
            Some(line) => {
                let mut out = String::new();
                if recent {
                    out.append("recent");
                }
                out.append(" -> ");
                out.append(line.get().as_str());
                out.append("\n");
                out.append(self.clear_screen().as_str());
                proof {
                    if recent {
                        assert(out@ =~= "recent"@ + " -> "@ + matches@[selected as int] + "\n"@
                            + sp_clear_screen(self@));
                    } else {
                        assert(out@ =~= Seq::<char>::empty() + " -> "@ + matches@[selected as int]
                            + "\n"@ + sp_clear_screen(self@));
                    }
                }
                out
            },
        }
    }

    /// The opening fragment: room for the list, the prompt, the cursor mark.
    pub fn render_prompt(&self, rows: usize) -> (r: String)
        requires
            rows >= 1,
        ensures
            r@ == sp_render_prompt(self@, rows as int),
    {
        let mut out = self.make_space(rows);
        out.append("Match: ");
        out.append(self.save_cursor().as_str());
        out.append(self.clear_screen().as_str());
        out
    }

    /// The terminal bell.
    pub fn bell(&self) -> (r: String)
        ensures
            r@ == seq!['\u{7}'],
    {
        let mut out = String::new();
        string_push_char(&mut out, '\u{7}');
        proof {
            assert(out@ =~= seq!['\u{7}']);
        }
        out
    }
}

proof fn lemma_esc_lookup_at(ev: Seq<(Seq<char>, Seq<char>)>, name: Seq<char>, j: int)
    requires
        0 <= j < ev.len(),
        ev[j].0 == name,
        forall|a: int| 0 <= a < j ==> (#[trigger] ev[a]).0 != name,
    ensures
        esc_lookup(ev, name) == Some(ev[j].1),
    decreases j,
{
    if j > 0 {
        assert(forall|a: int|
            0 <= a < j - 1 ==> (#[trigger] ev.drop_first()[a]) == ev[a + 1]);
        lemma_esc_lookup_at(ev.drop_first(), name, j - 1);
    }
}

proof fn lemma_esc_lookup_absent(ev: Seq<(Seq<char>, Seq<char>)>, name: Seq<char>)
    requires
        forall|a: int| 0 <= a < ev.len() ==> (#[trigger] ev[a]).0 != name,
    ensures
        esc_lookup(ev, name) is None,
    decreases ev.len(),
{
    if ev.len() > 0 {
        assert(forall|a: int|
            0 <= a < ev.drop_first().len() ==> (#[trigger] ev.drop_first()[a]) == ev[a + 1]);
        lemma_esc_lookup_absent(ev.drop_first(), name);
    }
}

} // verus!
