use vstd::prelude::*;

use crate::chars::{
    char_is_alphabetic, char_is_numeric, char_is_uppercase, char_is_whitespace,
    char_to_lowercase, is_alpha_char, is_numeric_char, is_upper_char, is_ws_char,
    lower_chars_of,
};

verus! {

/// Character prefix length over which per-line indices are built.
pub const MAX_LEN: usize = 80;

/// Heat bonus granted at a whitespace position.
pub const WHITESPACE_FACTOR: i64 = 5;

/// Divisor applied to the whitespace bonus after every position.
pub const WHITESPACE_REDUCE: i64 = 2;

/// Heat bonus granted when the character class changes.
pub const CLASS_FACTOR: i64 = 3;

/// Divisor applied to the class bonus while the change flag is off.
pub const CLASS_REDUCE: i64 = 2;

/// Weight of the average gap between adjacent chosen positions.
pub const DIST_WEIGHT: i64 = -10;

/// Weight of the summed heat of the chosen positions.
pub const HEAT_WEIGHT: i64 = 5;

/// The class a character falls in for the heat-map computation.
#[derive(PartialEq, Eq, Structural, Clone, Copy, Debug)]
pub enum CharClass {
    Whitespace,
    Numeric,
    Alphabetic,
    First,
    Other,
}

pub open spec fn class_of(c: char) -> CharClass {
    if is_ws_char(c) {
        CharClass::Whitespace
    } else if is_numeric_char(c) {
        CharClass::Numeric
    } else if is_alpha_char(c) {
        CharClass::Alphabetic
    } else {
        CharClass::Other
    }
}

/// The running state of the per-line heat computation.
pub ghost struct HeatState {
    pub ws: int,
    pub cs: int,
    pub cls: CharClass,
    pub change: bool,
}

pub open spec fn init_heat_state() -> HeatState {
    HeatState { ws: 0, cs: 0, cls: CharClass::First, change: false }
}

/// The state right after classifying character `c`, before the end-of-step decay.
pub open spec fn classify_step(st: HeatState, c: char) -> HeatState {
    let cls = class_of(c);
    if cls is Whitespace {
        HeatState { ws: WHITESPACE_FACTOR as int, cs: st.cs, cls, change: st.change }
    } else if cls == st.cls {
        HeatState { ws: st.ws, cs: st.cs, cls, change: st.change }
    } else if !st.change {
        HeatState { ws: st.ws, cs: st.cs + CLASS_FACTOR as int, cls, change: true }
    } else {
        HeatState { ws: st.ws, cs: st.cs, cls, change: false }
    }
}

/// The end-of-step decay: the whitespace bonus always halves, the class bonus
/// halves only while the change flag is off.
pub open spec fn decay_step(st: HeatState) -> HeatState {
    HeatState {
        ws: st.ws / (WHITESPACE_REDUCE as int),
        cs: if !st.change {
            st.cs / (CLASS_REDUCE as int)
        } else {
            st.cs
        },
        cls: st.cls,
        change: st.change,
    }
}

/// The heat-computation state entering position `i` of line `s`.
pub open spec fn state_at(s: Seq<char>, i: int) -> HeatState
    decreases i,
{
    if i <= 0 {
        init_heat_state()
    } else {
        decay_step(classify_step(state_at(s, i - 1), s[i - 1]))
    }
}

/// The heat recorded at position `i` of line `s`.
pub open spec fn heat_at(s: Seq<char>, i: int) -> int {
    let m = classify_step(state_at(s, i), s[i]);
    m.ws + m.cs
}

/// How many leading positions of `s` are indexed: the whole line, capped at `MAX_LEN`.
pub open spec fn indexed_limit(s: Seq<char>) -> int {
    if s.len() <= MAX_LEN {
        s.len() as int
    } else {
        MAX_LEN as int
    }
}

/// Whether a query character `c` matches line `s` at position `i`:
/// the position is indexed, is not whitespace, and holds `c` itself or an
/// uppercase character whose lowercase mapping contains `c`.
pub open spec fn occurs_at(s: Seq<char>, c: char, i: int) -> bool {
    &&& 0 <= i < indexed_limit(s)
    &&& !is_ws_char(s[i])
    &&& (s[i] == c || (is_upper_char(s[i]) && lower_chars_of(s[i]).contains(c)))
}

/// The ascending positions below `k` at which `c` matches `s`.
pub open spec fn positions_upto(s: Seq<char>, c: char, k: int) -> Seq<int>
    decreases k,
{
    if k <= 0 {
        Seq::empty()
    } else if occurs_at(s, c, k - 1) {
        positions_upto(s, c, k - 1).push(k - 1)
    } else {
        positions_upto(s, c, k - 1)
    }
}

/// The full index list for character `c` on line `s`.
pub open spec fn char_positions(s: Seq<char>, c: char) -> Seq<int> {
    positions_upto(s, c, indexed_limit(s))
}

pub open spec fn strictly_ascending(t: Seq<int>) -> bool {
    forall|a: int, b: int| 0 <= a < b < t.len() ==> t[a] < t[b]
}

pub proof fn lemma_positions_upto_props(s: Seq<char>, c: char, k: int)
    ensures
        strictly_ascending(positions_upto(s, c, k)),
        forall|j: int|
            0 <= j < positions_upto(s, c, k).len() ==> {
                let p = #[trigger] positions_upto(s, c, k)[j];
                0 <= p < k && occurs_at(s, c, p)
            },
        forall|p: int| 0 <= p < k && occurs_at(s, c, p) ==> positions_upto(s, c, k).contains(p),
    decreases k,
{
    if k > 0 {
        lemma_positions_upto_props(s, c, k - 1);
        let prev = positions_upto(s, c, k - 1);
        let cur = positions_upto(s, c, k);
        if occurs_at(s, c, k - 1) {
            assert(cur == prev.push(k - 1));
            assert forall|p: int| 0 <= p < k && occurs_at(s, c, p) implies cur.contains(p) by {
                if p < k - 1 {
                    assert(prev.contains(p));
                    let j = choose|j: int| 0 <= j < prev.len() && prev[j] == p;
                    assert(cur[j] == p);
                } else {
                    assert(cur[cur.len() - 1] == k - 1);
                }
            }
        } else {
            assert(cur == prev);
            assert forall|p: int| 0 <= p < k && occurs_at(s, c, p) implies cur.contains(p) by {
                assert(prev.contains(p));
            }
        }
    }
}

/// Bounds that the heat state keeps for every line and position; they make the
/// executable computation free of overflow.
pub open spec fn heat_state_bounded(st: HeatState) -> bool {
    &&& 0 <= st.ws <= 5
    &&& 0 <= st.cs
    &&& (st.change ==> st.cs <= 9)
    &&& (!st.change ==> st.cs <= 4)
}

/// In a strictly ascending sequence of non-negative integers, the element at
/// index `w` is at least `w`.
pub proof fn lemma_ascending_floor(t: Seq<int>, w: int)
    requires
        strictly_ascending(t),
        forall|a: int| 0 <= a < t.len() ==> t[a] >= 0,
        0 <= w < t.len(),
    ensures
        t[w] >= w,
    decreases w,
{
    if w > 0 {
        lemma_ascending_floor(t, w - 1);
    }
}

pub proof fn lemma_heat_at_bounds(s: Seq<char>, i: int)
    requires
        i >= 0,
    ensures
        0 <= heat_at(s, i) <= 14,
{
    lemma_state_bounded(s, i);
}

/// The heat recorded at a line's first position is exactly the bonus its
/// classification earns there: the whitespace bonus plus the class bonus,
/// before any decay has happened.
pub proof fn lemma_first_heat_entry(s: Seq<char>)
    requires
        s.len() > 0,
    ensures
        heat_at(s, 0) == ({
            let m = classify_step(init_heat_state(), s[0]);
            m.ws + m.cs
        }),
{
}

pub proof fn lemma_state_bounded(s: Seq<char>, i: int)
    requires
        i >= 0,
    ensures
        heat_state_bounded(state_at(s, i)),
    decreases i,
{
    if i > 0 {
        lemma_state_bounded(s, i - 1);
    }
}

/// The character index as a mathematical association list: each entry is a
/// character together with the ascending positions at which it matches.
pub open spec fn cm_view(m: Seq<(char, Vec<usize>)>) -> Seq<(char, Seq<int>)> {
    Seq::new(m.len(), |j: int| (m[j].0, m[j].1@.map_values(|u: usize| u as int)))
}

pub open spec fn cm_has_key(md: Seq<(char, Seq<int>)>, c: char) -> bool {
    exists|j: int| 0 <= j < md.len() && (#[trigger] md[j]).0 == c
}

/// The index bound an entry for `c` has reached while position `k` is being
/// folded in: `k + 1` once `c` has been handled at `k`, else `k`.
pub open spec fn cm_next_k(k: int, done: Set<char>, c: char) -> int {
    if done.contains(c) {
        k + 1
    } else {
        k
    }
}

/// The character map during construction: every key is unique, every entry
/// holds exactly the match positions of its key below its reached bound, and
/// every character with a match below its reached bound has an entry.
pub open spec fn cm_partial(md: Seq<(char, Seq<int>)>, s: Seq<char>, k: int, done: Set<char>) -> bool {
    &&& forall|a: int, b: int|
        0 <= a < b < md.len() ==> (#[trigger] md[a]).0 != (#[trigger] md[b]).0
    &&& forall|j: int|
        0 <= j < md.len() ==> {
            let e = #[trigger] md[j];
            e.1 == positions_upto(s, e.0, cm_next_k(k, done, e.0)) && e.1.len() > 0
        }
    &&& forall|c: char|
        positions_upto(s, c, #[trigger] cm_next_k(k, done, c)).len() > 0 ==> cm_has_key(md, c)
}

/// The finished character map for the first `k` positions of `s`.
pub open spec fn cm_inv(md: Seq<(char, Seq<int>)>, s: Seq<char>, k: int) -> bool {
    cm_partial(md, s, k, Set::empty())
}

/// Record position `i` for character `c`: extend its entry, or open one.
fn map_push(
    m: &mut Vec<(char, Vec<usize>)>,
    c: char,
    i: usize,
    Ghost(s): Ghost<Seq<char>>,
    Ghost(done): Ghost<Set<char>>,
)
    requires
        cm_partial(cm_view(old(m)@), s, i as int, done),
        occurs_at(s, c, i as int),
        !done.contains(c),
    ensures
        cm_partial(cm_view(final(m)@), s, i as int, done.insert(c)),
{
    proof {
        lemma_positions_upto_props(s, c, i as int);
        assert(positions_upto(s, c, i + 1) == positions_upto(s, c, i as int).push(i as int));
    }
    let ghost od = cm_view(m@);
    let ghost done2 = done.insert(c);
    let n = m.len();
    let mut j: usize = 0;
    while j < n
        invariant
            n == m@.len(),
            j <= n,
            m@ == old(m)@,
            od == cm_view(m@),
            cm_partial(od, s, i as int, done),
            occurs_at(s, c, i as int),
            !done.contains(c),
            done2 == done.insert(c),
            positions_upto(s, c, i + 1) == positions_upto(s, c, i as int).push(i as int),
            forall|a: int| 0 <= a < j ==> (#[trigger] od[a]).0 != c,
        decreases n - j,
    {
        if m[j].0 == c {
            let (ch, mut v) = m.swap_remove(j);
            v.push(i);
            m.push((ch, v));
            proof {
                let nd = cm_view(m@);
                assert(od[j as int].1 == positions_upto(s, c, i as int));
                assert(v@.map_values(|u: usize| u as int) =~= positions_upto(s, c, i + 1));
                assert forall|a: int| 0 <= a < nd.len() implies {
                    let e = #[trigger] nd[a];
                    e.1 == positions_upto(s, e.0, cm_next_k(i as int, done2, e.0)) && e.1.len()
                        > 0
                } by {
                    if a == nd.len() - 1 {
                        assert(nd[a] == (c, v@.map_values(|u: usize| u as int)));
                    } else if a == j {
                        assert(m@[a] == old(m)@[od.len() - 1]);
                        assert(nd[a] == od[od.len() - 1]);
                        assert(od[j as int].0 == c && a == j && od.len() - 1 != j ==> nd[a].0
                            != c);
                    } else {
                        assert(nd[a] == od[a]);
                    }
                }
                assert forall|a: int, b: int| 0 <= a < b < nd.len() implies (
                #[trigger] nd[a]).0 != (#[trigger] nd[b]).0 by {
                    let la = if a == nd.len() - 1 {
                        j as int
                    } else if a == j {
                        od.len() - 1
                    } else {
                        a
                    };
                    let lb = if b == nd.len() - 1 {
                        j as int
                    } else if b == j {
                        od.len() - 1
                    } else {
                        b
                    };
                    assert(nd[a].0 == od[la].0 && nd[b].0 == od[lb].0);
                }
                assert forall|c2: char|
                    positions_upto(s, c2, #[trigger] cm_next_k(i as int, done2, c2)).len()
                        > 0 implies cm_has_key(nd, c2) by {
                    if c2 == c {
                        assert(nd[nd.len() - 1].0 == c);
                    } else {
                        assert(cm_next_k(i as int, done2, c2) == cm_next_k(i as int, done, c2));
                        assert(cm_has_key(od, c2));
                        let w = choose|w: int| 0 <= w < od.len() && od[w].0 == c2;
                        if w == j {
                            assert(nd[nd.len() - 1].0 == c && od[j as int].0 == c);
                        } else if w == od.len() - 1 && w != j {
                            assert(nd[j as int].0 == c2);
                        } else {
                            assert(nd[w].0 == c2);
                        }
                    }
                }
            }
            return ;
        }
        j += 1;
    }
    let mut v: Vec<usize> = Vec::new();
    v.push(i);
    m.push((c, v));
    proof {
        let nd = cm_view(m@);
        assert(forall|a: int| 0 <= a < od.len() ==> (#[trigger] od[a]).0 != c);
        assert(cm_next_k(i as int, done, c) == i as int);
        if positions_upto(s, c, i as int).len() > 0 {
            assert(positions_upto(s, c, cm_next_k(i as int, done, c)).len() > 0);
            assert(cm_has_key(od, c));
            assert(false);
        }
        assert(v@.map_values(|u: usize| u as int) =~= positions_upto(s, c, i + 1));
        assert forall|a: int, b: int| 0 <= a < b < nd.len() implies (#[trigger] nd[a]).0 != (
        #[trigger] nd[b]).0 by {
            if b < od.len() {
                assert(nd[a] == od[a] && nd[b] == od[b]);
            } else {
                assert(nd[b].0 == c && nd[a] == od[a]);
            }
        }
        assert forall|a: int| 0 <= a < nd.len() implies {
            let e = #[trigger] nd[a];
            e.1 == positions_upto(s, e.0, cm_next_k(i as int, done2, e.0)) && e.1.len() > 0
        } by {
            if a < od.len() {
                assert(nd[a] == od[a]);
            } else {
                assert(nd[a] == (c, v@.map_values(|u: usize| u as int)));
            }
        }
        assert forall|c2: char|
            positions_upto(s, c2, #[trigger] cm_next_k(i as int, done2, c2)).len()
                > 0 implies cm_has_key(nd, c2) by {
            if c2 == c {
                assert(nd[nd.len() - 1].0 == c);
            } else {
                assert(cm_next_k(i as int, done2, c2) == cm_next_k(i as int, done, c2));
                assert(positions_upto(s, c2, cm_next_k(i as int, done, c2)).len() > 0);
                assert(cm_has_key(od, c2));
                let w = choose|w: int| 0 <= w < od.len() && od[w].0 == c2;
                assert(nd[w].0 == c2);
            }
        }
    }
}

/// A strictly ascending choice of one match position per query character.
pub open spec fn valid_tuple(s: Seq<char>, q: Seq<char>, t: Seq<int>) -> bool {
    &&& t.len() == q.len()
    &&& forall|k: int| 0 <= k < t.len() ==> char_positions(s, q[k]).contains(#[trigger] t[k])
    &&& strictly_ascending(t)
}

pub open spec fn spec_heat_sum(s: Seq<char>, t: Seq<int>) -> int
    decreases t.len(),
{
    if t.len() == 0 {
        0
    } else {
        spec_heat_sum(s, t.drop_last()) + heat_at(s, t.last())
    }
}

/// The score of one position tuple: the average gap between the first and the
/// last chosen position weighs against the line, the heat of the chosen
/// positions weighs for it.
pub open spec fn tuple_score(s: Seq<char>, t: Seq<int>) -> int {
    let m = t.len() as int;
    let avg = if m < 2 {
        0
    } else {
        (t[m - 1] - t[0]) / m
    };
    avg * (DIST_WEIGHT as int) + spec_heat_sum(s, t) * (HEAT_WEIGHT as int)
}

/// Whether the non-empty query `q` matches line `s` at all.
pub open spec fn line_matches(s: Seq<char>, q: Seq<char>) -> bool {
    q.len() > 0 && exists|t: Seq<int>| valid_tuple(s, q, t)
}

/// `sc` is the score of some valid tuple, and no valid tuple beats it.
pub open spec fn is_line_score(s: Seq<char>, q: Seq<char>, sc: int) -> bool {
    &&& exists|t: Seq<int>| valid_tuple(s, q, t) && tuple_score(s, t) == sc
    &&& forall|t: Seq<int>| valid_tuple(s, q, t) ==> tuple_score(s, t) <= sc
}

/// The score of line `s` against query `q`: the best tuple score.
pub open spec fn line_score(s: Seq<char>, q: Seq<char>) -> int {
    choose|sc: int| is_line_score(s, q, sc)
}

pub proof fn lemma_line_score_unique(s: Seq<char>, q: Seq<char>, a: int, b: int)
    requires
        is_line_score(s, q, a),
        is_line_score(s, q, b),
    ensures
        a == b,
{
}

/// The suffix of `t` whose elements are strictly greater than `lo`; on an
/// ascending sequence these form a suffix.
pub open spec fn suffix_gt(t: Seq<int>, lo: int) -> Seq<int>
    decreases t.len(),
{
    if t.len() == 0 {
        Seq::empty()
    } else if t[0] > lo {
        t
    } else {
        suffix_gt(t.drop_first(), lo)
    }
}

pub proof fn lemma_suffix_gt(t: Seq<int>, lo: int)
    requires
        strictly_ascending(t),
    ensures
        strictly_ascending(suffix_gt(t, lo)),
        forall|x: int| suffix_gt(t, lo).contains(x) <==> (t.contains(x) && x > lo),
        exists|d: int|
            0 <= d <= t.len() && suffix_gt(t, lo) == t.skip(d) && (forall|w: int|
                0 <= w < d ==> t[w] <= lo) && (d < t.len() ==> t[d] > lo),
    decreases t.len(),
{
    if t.len() == 0 {
        assert(suffix_gt(t, lo) == t.skip(0));
        assert forall|x: int| suffix_gt(t, lo).contains(x) <==> (t.contains(x) && x > lo) by {}
    } else if t[0] > lo {
        assert(suffix_gt(t, lo) == t.skip(0));
        assert forall|x: int| t.contains(x) implies x > lo by {
            let w = choose|w: int| 0 <= w < t.len() && t[w] == x;
            if w > 0 {
                assert(t[0] < t[w]);
            }
        }
    } else {
        let r = t.drop_first();
        assert(strictly_ascending(r)) by {
            assert(forall|a: int, b: int|
                0 <= a < b < r.len() ==> r[a] == t[a + 1] && r[b] == t[b + 1]);
        }
        lemma_suffix_gt(r, lo);
        let d0 = choose|d: int|
            0 <= d <= r.len() && suffix_gt(r, lo) == r.skip(d) && (forall|w: int|
                0 <= w < d ==> r[w] <= lo) && (d < r.len() ==> r[d] > lo);
        assert(r.skip(d0) =~= t.skip(d0 + 1));
        assert(forall|w: int| 0 <= w < d0 + 1 ==> t[w] <= lo) by {
            assert(forall|w: int| 1 <= w < d0 + 1 ==> t[w] == r[w - 1]);
        }
        assert forall|x: int| suffix_gt(t, lo).contains(x) <==> (t.contains(x) && x > lo) by {
            if t.contains(x) && x > lo {
                let w = choose|w: int| 0 <= w < t.len() && t[w] == x;
                assert(w > 0);
                assert(r[w - 1] == x);
                assert(r.contains(x));
            }
            if suffix_gt(t, lo).contains(x) {
                assert(r.contains(x));
                let w = choose|w: int| 0 <= w < r.len() && r[w] == x;
                assert(t[w + 1] == x);
            }
        }
    }
}

/// The position list for query character `k`: every match position for the
/// first character, afterwards only those strictly past the smallest position
/// kept for the previous character.
pub open spec fn plist_at(s: Seq<char>, q: Seq<char>, k: int) -> Seq<int>
    decreases k,
{
    if k <= 0 {
        char_positions(s, q[0])
    } else {
        let prev = plist_at(s, q, k - 1);
        if prev.len() == 0 {
            Seq::empty()
        } else {
            suffix_gt(char_positions(s, q[k]), prev[0])
        }
    }
}

pub proof fn lemma_plist_at_props(s: Seq<char>, q: Seq<char>, k: int)
    requires
        0 <= k,
    ensures
        strictly_ascending(plist_at(s, q, k)),
        forall|x: int| plist_at(s, q, k).contains(x) ==> char_positions(s, q[k]).contains(x),
    decreases k,
{
    lemma_positions_upto_props(s, q[k], indexed_limit(s));
    if k == 0 {
    } else {
        lemma_plist_at_props(s, q, k - 1);
        let prev = plist_at(s, q, k - 1);
        if prev.len() > 0 {
            lemma_suffix_gt(char_positions(s, q[k]), prev[0]);
        }
    }
}

/// Every valid tuple threads through the position lists.
pub proof fn lemma_tuple_in_plists(s: Seq<char>, q: Seq<char>, t: Seq<int>, k: int)
    requires
        valid_tuple(s, q, t),
        0 <= k < q.len(),
    ensures
        plist_at(s, q, k).contains(t[k]),
    decreases k,
{
    lemma_plist_at_props(s, q, k);
    if k == 0 {
    } else {
        lemma_tuple_in_plists(s, q, t, k - 1);
        let prev = plist_at(s, q, k - 1);
        assert(prev.len() > 0);
        lemma_plist_at_props(s, q, k - 1);
        let w = choose|w: int| 0 <= w < prev.len() && prev[w] == t[k - 1];
        assert(prev[0] <= t[k - 1]) by {
            if w > 0 {
                assert(prev[0] < prev[w]);
            }
        }
        assert(t[k] > prev[0]);
        lemma_positions_upto_props(s, q[k], indexed_limit(s));
        lemma_suffix_gt(char_positions(s, q[k]), prev[0]);
    }
}

pub open spec fn tview(v: Seq<usize>) -> Seq<int> {
    v.map_values(|u: usize| u as int)
}

pub open spec fn lists_view(ls: Seq<Vec<usize>>) -> Seq<Seq<int>> {
    Seq::new(ls.len(), |k: int| tview(ls[k]@))
}

/// A strictly ascending tuple whose first `n` components come from the first
/// `n` position lists.
pub open spec fn ptuple(ll: Seq<Seq<int>>, n: int, t: Seq<int>) -> bool {
    &&& t.len() == n
    &&& forall|k: int| 0 <= k < n ==> ll[k].contains(#[trigger] t[k])
    &&& strictly_ascending(t)
}

pub open spec fn contains_tuple(rs: Seq<Vec<usize>>, t: Seq<int>) -> bool {
    exists|j: int| 0 <= j < rs.len() && tview(rs[j]@) == t
}

/// A prefix of a valid tuple is a valid tuple over the same leading lists.
pub proof fn lemma_ptuple_prefix(ll: Seq<Seq<int>>, n: int, t: Seq<int>, m: int)
    requires
        ptuple(ll, n, t),
        0 <= m <= n,
    ensures
        ptuple(ll, m, t.take(m)),
{
    assert(forall|k: int| 0 <= k < m ==> t.take(m)[k] == t[k]);
}

/// An empty position list leaves every later one empty.
pub proof fn lemma_plist_empty_propagates(s: Seq<char>, q: Seq<char>, k: int, k2: int)
    requires
        0 <= k <= k2,
        plist_at(s, q, k).len() == 0,
    ensures
        plist_at(s, q, k2).len() == 0,
    decreases k2 - k,
{
    if k < k2 {
        lemma_plist_empty_propagates(s, q, k, k2 - 1);
    }
}

/// One scored candidate: the line together with its query score and its rank
/// bias, ordered by score first and bias second.
pub struct LineMatch {
    score: i64,
    factor: i64,
    line: String,
}

impl View for LineMatch {
    type V = (int, int, Seq<char>);

    closed spec fn view(&self) -> (int, int, Seq<char>) {
        (self.score as int, self.factor as int, self.line@)
    }
}

/// `a` ranks at least as high as `b`: a higher score, or an equal score and
/// at least as high a bias.
pub open spec fn entry_key_ge(a: (int, int, Seq<char>), b: (int, int, Seq<char>)) -> bool {
    a.0 > b.0 || (a.0 == b.0 && a.1 >= b.1)
}

pub open spec fn sorted_desc(s: Seq<(int, int, Seq<char>)>) -> bool {
    forall|i: int, j: int| 0 <= i < j < s.len() ==> entry_key_ge(#[trigger] s[i], #[trigger] s[j])
}

pub open spec fn mview(ms: Seq<LineMatch>) -> Seq<(int, int, Seq<char>)> {
    Seq::new(ms.len(), |i: int| ms[i]@)
}

/// One entry per matching line of `base`, in base order: the line's score,
/// its bias, and the line itself.
pub open spec fn match_entries(base: Seq<LineInfoV>, q: Seq<char>) -> Seq<(int, int, Seq<char>)>
    decreases base.len(),
{
    if base.len() == 0 {
        Seq::empty()
    } else {
        let rest = match_entries(base.drop_first(), q);
        if line_matches(base[0].line, q) {
            seq![(line_score(base[0].line, q), base[0].factor, base[0].line)] + rest
        } else {
            rest
        }
    }
}

proof fn lemma_match_entries_snoc(base: Seq<LineInfoV>, v: LineInfoV, q: Seq<char>)
    ensures
        match_entries(base.push(v), q) == if line_matches(v.line, q) {
            match_entries(base, q).push((line_score(v.line, q), v.factor, v.line))
        } else {
            match_entries(base, q)
        },
    decreases base.len(),
{
    if base.len() == 0 {
        assert(base.push(v).drop_first() =~= Seq::<LineInfoV>::empty());
        assert(base.push(v)[0] == v);
        assert(match_entries(Seq::<LineInfoV>::empty(), q) == Seq::<(
            int,
            int,
            Seq<char>,
        )>::empty());
        assert(match_entries(base, q) == Seq::<(int, int, Seq<char>)>::empty());
        if line_matches(v.line, q) {
            let ev = (line_score(v.line, q), v.factor, v.line);
            assert(match_entries(base.push(v), q) == seq![ev] + Seq::<(
                int,
                int,
                Seq<char>,
            )>::empty());
            assert(seq![ev] + Seq::<(int, int, Seq<char>)>::empty() =~= match_entries(
                base,
                q,
            ).push(ev));
        }
    } else {
        assert(base.push(v).drop_first() =~= base.drop_first().push(v));
        assert(base.push(v)[0] == base[0]);
        lemma_match_entries_snoc(base.drop_first(), v, q);
        if line_matches(base[0].line, q) {
            let e = (line_score(base[0].line, q), base[0].factor, base[0].line);
            if line_matches(v.line, q) {
                let ev = (line_score(v.line, q), v.factor, v.line);
                assert(seq![e] + match_entries(base.drop_first(), q).push(ev) =~= (seq![e]
                    + match_entries(base.drop_first(), q)).push(ev));
            }
        }
    }
}

proof fn lemma_line_score_is(s: Seq<char>, q: Seq<char>, sc: int)
    requires
        is_line_score(s, q, sc),
    ensures
        line_score(s, q) == sc,
{
    let picked = choose|x: int| is_line_score(s, q, x);
    assert(is_line_score(s, q, picked));
    lemma_line_score_unique(s, q, picked, sc);
}

/// Whether the ranked results `r` are what a query for `q` against `base`,
/// asking for at most `n` lines, must return: nothing for an empty query;
/// otherwise the `n` best entries of some ranking of all matching lines,
/// ordered by descending score and bias.
pub open spec fn query_post(base: Seq<LineInfoV>, q: Seq<char>, n: int, r: Seq<Seq<char>>) -> bool {
    if q.len() == 0 {
        r == Seq::<Seq<char>>::empty()
    } else {
        exists|sorted: Seq<(int, int, Seq<char>)>|
            {
                &&& #[trigger] sorted.to_multiset() == match_entries(base, q).to_multiset()
                &&& sorted_desc(sorted)
                &&& r == sorted.take(
                    if n <= sorted.len() {
                        n
                    } else {
                        sorted.len() as int
                    },
                ).map_values(|e: (int, int, Seq<char>)| e.2)
            }
    }
}

/// One entry of a history line's search index: the line, its character
/// position index, its per-position heat, and its rank bias.
pub struct LineInfo {
    line: String,
    char_map: Vec<(char, Vec<usize>)>,
    heat_map: Vec<i64>,
    factor: i64,
}

/// The mathematical content of a `LineInfo`: the indices and heats are a
/// function of the line, so only the line and the bias remain.
pub ghost struct LineInfoV {
    pub line: Seq<char>,
    pub factor: int,
}

impl View for LineInfo {
    type V = LineInfoV;

    closed spec fn view(&self) -> LineInfoV {
        LineInfoV { line: self.line@, factor: self.factor as int }
    }
}

impl LineMatch {
    /// Whether `self` ranks strictly below `other`.
    fn ranks_below(&self, other: &LineMatch) -> (r: bool)
        ensures
            r == !entry_key_ge(self@, other@),
    {
        self.score < other.score || (self.score == other.score && self.factor < other.factor)
    }
}

/// Sort candidates by descending score, ties by descending bias.
#[verifier::loop_isolation(false)]
fn sort_matches(input: Vec<LineMatch>) -> (out: Vec<LineMatch>)
    ensures
        mview(out@).to_multiset() == mview(input@).to_multiset(),
        sorted_desc(mview(out@)),
        out@.len() == input@.len(),
{
    broadcast use vstd::seq_lib::group_to_multiset_ensures;

    let ghost orig = mview(input@).to_multiset();
    let mut rest = input;
    let mut out: Vec<LineMatch> = Vec::new();
    while rest.len() > 0
        invariant
            mview(out@).to_multiset().add(mview(rest@).to_multiset()) == orig,
            out@.len() + rest@.len() == orig.len(),
            sorted_desc(mview(out@)),
            forall|a: int, b: int|
                0 <= a < out@.len() && 0 <= b < rest@.len() ==> entry_key_ge(
                    #[trigger] mview(out@)[a],
                    #[trigger] mview(rest@)[b],
                ),
        decreases rest@.len(),
    {
        let mut best_i: usize = 0;
        let mut i: usize = 1;
        while i < rest.len()
            invariant
                best_i < i <= rest@.len(),
                forall|b: int|
                    0 <= b < i ==> entry_key_ge(
                        mview(rest@)[best_i as int],
                        #[trigger] mview(rest@)[b],
                    ),
            decreases rest@.len() - i,
        {
            if rest[best_i].ranks_below(&rest[i]) {
                best_i = i;
            }
            i += 1;
        }
        let ghost old_rest = rest@;
        let ghost old_out = out@;
        let x = rest.remove(best_i);
        out.push(x);
        proof {
            assert(mview(rest@) =~= mview(old_rest).remove(best_i as int));
            assert(mview(out@) =~= mview(old_out).push(x@));
            assert(mview(old_rest)[best_i as int] == x@);
            assert(mview(rest@).to_multiset() =~= mview(old_rest).to_multiset().remove(x@));
            assert(mview(out@).to_multiset() =~= mview(old_out).to_multiset().insert(x@));
            assert(mview(old_rest).to_multiset().count(x@) > 0);
            assert(mview(out@).to_multiset().add(mview(rest@).to_multiset()) =~= orig);
            assert forall|a: int, b: int|
                0 <= a < out@.len() && 0 <= b < rest@.len() implies entry_key_ge(
                #[trigger] mview(out@)[a],
                #[trigger] mview(rest@)[b],
            ) by {
                let ob = if b < best_i {
                    b
                } else {
                    b + 1
                };
                assert(mview(rest@)[b] == mview(old_rest)[ob]);
                if a < old_out.len() {
                    assert(mview(out@)[a] == mview(old_out)[a]);
                } else {
                    assert(mview(out@)[a] == x@);
                }
            }
            assert forall|a: int, b: int|
                0 <= a < b < out@.len() implies entry_key_ge(
                #[trigger] mview(out@)[a],
                #[trigger] mview(out@)[b],
            ) by {
                if b < old_out.len() {
                    assert(mview(out@)[a] == mview(old_out)[a] && mview(out@)[b] == mview(
                        old_out,
                    )[b]);
                } else {
                    assert(mview(out@)[b] == x@ && mview(out@)[a] == mview(old_out)[a]);
                    assert(entry_key_ge(mview(old_out)[a], mview(old_rest)[best_i as int]));
                }
            }
        }
    }
    out
}

proof fn lemma_match_entries_elements(base: Seq<LineInfoV>, q: Seq<char>)
    ensures
        forall|j: int|
            0 <= j < match_entries(base, q).len() ==> line_matches(
                (#[trigger] match_entries(base, q)[j]).2,
                q,
            ),
    decreases base.len(),
{
    if base.len() > 0 {
        lemma_match_entries_elements(base.drop_first(), q);
        let rest = match_entries(base.drop_first(), q);
        if line_matches(base[0].line, q) {
            assert(forall|j: int|
                1 <= j < match_entries(base, q).len() ==> match_entries(base, q)[j] == rest[j
                    - 1]);
        }
    }
}

/// A line that the query does not match is absent from the results: whatever
/// ranking a query returns, every returned line matches the query.
pub proof fn lemma_query_excludes_nonmatch(
    base: Seq<LineInfoV>,
    q: Seq<char>,
    n: int,
    r: Seq<Seq<char>>,
    l: Seq<char>,
)
    requires
        n >= 0,
        query_post(base, q, n, r),
        !line_matches(l, q),
    ensures
        !r.contains(l),
{
    broadcast use vstd::seq_lib::group_to_multiset_ensures;

    if q.len() == 0 {
        assert(r.len() == 0);
        if r.contains(l) {
            let i = choose|i: int| 0 <= i < r.len() && r[i] == l;
        }
    } else if r.contains(l) {
        let sorted = choose|sorted: Seq<(int, int, Seq<char>)>|
            {
                &&& #[trigger] sorted.to_multiset() == match_entries(base, q).to_multiset()
                &&& sorted_desc(sorted)
                &&& r == sorted.take(
                    if n <= sorted.len() {
                        n
                    } else {
                        sorted.len() as int
                    },
                ).map_values(|e: (int, int, Seq<char>)| e.2)
            };
        let i = choose|i: int| 0 <= i < r.len() && r[i] == l;
        let cut = if n <= sorted.len() {
            n
        } else {
            sorted.len() as int
        };
        assert(exists|sorted: Seq<(int, int, Seq<char>)>|
            {
                &&& #[trigger] sorted.to_multiset() == match_entries(base, q).to_multiset()
                &&& sorted_desc(sorted)
                &&& r == sorted.take(
                    if n <= sorted.len() {
                        n
                    } else {
                        sorted.len() as int
                    },
                ).map_values(|e: (int, int, Seq<char>)| e.2)
            });
        let e = sorted.take(cut)[i];
        assert(e.2 == l);
        assert(r.len() == cut);
        assert(sorted.take(cut)[i] == sorted[i]);
        assert(sorted[i] == e);
        assert(sorted.contains(e));
        assert(sorted.to_multiset().count(e) > 0);
        assert(match_entries(base, q).to_multiset().count(e) > 0);
        assert(match_entries(base, q).contains(e));
        let j = choose|j: int|
            0 <= j < match_entries(base, q).len() && match_entries(base, q)[j] == e;
        lemma_match_entries_elements(base, q);
        assert(line_matches(e.2, q));
    }
}

proof fn lemma_match_entries_has(base: Seq<LineInfoV>, q: Seq<char>, i: int)
    requires
        0 <= i < base.len(),
        line_matches(base[i].line, q),
    ensures
        exists|j: int|
            0 <= j < match_entries(base, q).len() && (#[trigger] match_entries(base, q)[j]).2
                == base[i].line,
    decreases base.len(),
{
    let me = match_entries(base, q);
    if i == 0 {
        assert(me[0].2 == base[0].line);
    } else {
        assert(forall|a: int|
            0 <= a < base.drop_first().len() ==> (#[trigger] base.drop_first()[a]) == base[a
                + 1]);
        lemma_match_entries_has(base.drop_first(), q, i - 1);
        let rest = match_entries(base.drop_first(), q);
        let j = choose|j: int| 0 <= j < rest.len() && (#[trigger] rest[j]).2 == base[i].line;
        if line_matches(base[0].line, q) {
            assert(me[j + 1] == rest[j]);
        } else {
            assert(me[j] == rest[j]);
        }
    }
}

/// When no more lines match than were asked for, every matching line of the
/// base is among the results.
pub proof fn lemma_query_returns_all_matches(
    base: Seq<LineInfoV>,
    q: Seq<char>,
    n: int,
    r: Seq<Seq<char>>,
    l: Seq<char>,
)
    requires
        n >= 0,
        q.len() > 0,
        query_post(base, q, n, r),
        match_entries(base, q).len() <= n,
        exists|i: int| 0 <= i < base.len() && (#[trigger] base[i]).line == l,
        line_matches(l, q),
    ensures
        r.contains(l),
{
    broadcast use vstd::seq_lib::group_to_multiset_ensures;

    let sorted = choose|sorted: Seq<(int, int, Seq<char>)>|
        {
            &&& #[trigger] sorted.to_multiset() == match_entries(base, q).to_multiset()
            &&& sorted_desc(sorted)
            &&& r == sorted.take(
                if n <= sorted.len() {
                    n
                } else {
                    sorted.len() as int
                },
            ).map_values(|e: (int, int, Seq<char>)| e.2)
        };
    let me = match_entries(base, q);
    assert(sorted.to_multiset().len() == me.to_multiset().len());
    assert(sorted.len() == me.len());
    let i = choose|i: int| 0 <= i < base.len() && (#[trigger] base[i]).line == l;
    lemma_match_entries_has(base, q, i);
    let j = choose|j: int| 0 <= j < me.len() && (#[trigger] me[j]).2 == l;
    let e = me[j];
    assert(me.contains(e));
    assert(me.to_multiset().count(e) > 0);
    assert(sorted.to_multiset().count(e) > 0);
    assert(sorted.contains(e));
    let w = choose|w: int| 0 <= w < sorted.len() && sorted[w] == e;
    let cut = if n <= sorted.len() {
        n
    } else {
        sorted.len() as int
    };
    assert(cut == sorted.len());
    assert(r[w] == sorted.take(cut)[w].2);
    assert(r[w] == l);
}

/// The immutable collection of indexed history lines that queries run
/// against.
pub struct SearchBase {
    lines: Vec<LineInfo>,
}

impl View for SearchBase {
    type V = Seq<LineInfoV>;

    closed spec fn view(&self) -> Seq<LineInfoV> {
        Seq::new(self.lines@.len(), |i: int| self.lines@[i]@)
    }
}

impl SearchBase {
    pub closed spec fn wf(&self) -> bool {
        forall|i: int| 0 <= i < self.lines@.len() ==> (#[trigger] self.lines@[i]).wf()
    }

    pub fn new(lines: Vec<LineInfo>) -> (r: SearchBase)
        requires
            forall|i: int| 0 <= i < lines@.len() ==> (#[trigger] lines@[i]).wf(),
        ensures
            r.wf(),
            r@ == Seq::new(lines@.len(), |i: int| lines@[i]@),
    {
        SearchBase { lines }
    }

    /// Rank every line that matches `query` and return the `n` best, best
    /// first: descending score, ties broken by descending bias. An empty
    /// query matches nothing.
    #[verifier::loop_isolation(false)]
    pub fn query(&self, query: &str, n: usize) -> (r: Vec<String>)
        requires
            self.wf(),
        ensures
            query_post(self@, query@, n as int, r.deep_view()),
            query@.len() == 0 ==> r.deep_view().len() == 0,
            query@.len() > 0 ==> r.deep_view().len() == if n as int <= match_entries(
                self@,
                query@,
            ).len() {
                n as int
            } else {
                match_entries(self@, query@).len() as int
            },
    {
        broadcast use vstd::seq_lib::group_to_multiset_ensures;

        let ghost q = query@;
        let mut r: Vec<String> = Vec::new();
        if query.unicode_len() == 0 {
            assert(r.deep_view() =~= Seq::<Seq<char>>::empty());
            return r;
        }

        let mut found: Vec<LineMatch> = Vec::new();
        let mut i: usize = 0;
        while i < self.lines.len()
            invariant
                i <= self.lines@.len(),
                mview(found@) == match_entries(self@.take(i as int), q),
            decreases self.lines@.len() - i,
        {
            let li = &self.lines[i];
            proof {
                assert(li.wf());
                assert(self@.take(i + 1) =~= self@.take(i as int).push(self@[i as int]));
                lemma_match_entries_snoc(self@.take(i as int), self@[i as int], q);
            }
            match li.score(query) {
                None => {
                    assert(!line_matches(self@[i as int].line, q));
                },
                Some(sc) => {
                    proof {
                        lemma_line_score_is(li@.line, q, sc as int);
                    }
                    let lm = LineMatch { score: sc, factor: li.factor, line: li.line.clone() };
                    assert(lm@ == (line_score(self@[i as int].line, q), self@[i as int].factor,
                        self@[i as int].line));
                    found.push(lm);
                    assert(mview(found@) =~= match_entries(self@.take(i + 1), q));
                },
            }
            i += 1;
        }
        proof {
            assert(self@.take(self.lines@.len() as int) =~= self@);
        }

        let sorted_vec = sort_matches(found);
        let ghost sorted = mview(sorted_vec@);
        proof {
            assert(sorted.to_multiset().len() == match_entries(self@, q).to_multiset().len());
            assert(sorted.len() == match_entries(self@, q).len());
        }

        let limit = if sorted_vec.len() < n {
            sorted_vec.len()
        } else {
            n
        };
        let mut w: usize = 0;
        while w < limit
            invariant
                w <= limit <= sorted_vec@.len(),
                sorted == mview(sorted_vec@),
                r.deep_view() =~~= sorted.take(w as int).map_values(
                    |e: (int, int, Seq<char>)| e.2,
                ),
            decreases limit - w,
        {
            let ghost old_deep = r.deep_view();
            r.push(sorted_vec[w].line.clone());
            proof {
                assert(r@.len() == w + 1);
                assert(forall|i: int| 0 <= i < w ==> r.deep_view()[i] == old_deep[i]);
                assert(sorted[w as int] == sorted_vec@[w as int]@);
                assert(r.deep_view()[w as int] == sorted[w as int].2);
                let ghost goal = sorted.take(w + 1).map_values(|e: (int, int, Seq<char>)| e.2);
                assert(goal.len() == w + 1);
                assert forall|i: int| 0 <= i < w + 1 implies r.deep_view()[i] == goal[i] by {
                    assert(goal[i] == sorted.take(w + 1)[i].2);
                    assert(sorted.take(w + 1)[i] == sorted[i]);
                    if i < w {
                        assert(r.deep_view()[i] == old_deep[i]);
                        assert(old_deep[i] == sorted.take(w as int).map_values(
                            |e: (int, int, Seq<char>)| e.2,
                        )[i]);
                        assert(sorted.take(w as int)[i] == sorted[i]);
                    }
                }
                assert(r.deep_view() =~~= goal);
            }
            w += 1;
        }
        proof {
            let cut = if n as int <= sorted.len() {
                n as int
            } else {
                sorted.len() as int
            };
            assert(limit as int == cut);
            assert(r.deep_view() == sorted.take(cut).map_values(|e: (int, int, Seq<char>)| e.2));
            assert(query_post(self@, q, n as int, r.deep_view()));
        }
        r
    }
}

/// The characters recorded while position `k` is folded in: the character at
/// `k` itself, and every lowercase variant of it seen so far.
pub open spec fn done_set(c: char, lcs: Seq<char>, j: int) -> Set<char> {
    Set::new(|x: char| x == c || lcs.take(j).contains(x))
}

proof fn lemma_take_contains<A>(q: Seq<A>, j: int, x: A)
    requires
        0 <= j < q.len(),
    ensures
        q.take(j + 1).contains(x) <==> (q.take(j).contains(x) || q[j] == x),
{
    if q.take(j + 1).contains(x) {
        let w = choose|w: int| 0 <= w < j + 1 && #[trigger] q.take(j + 1)[w] == x;
        if w < j {
            assert(q.take(j)[w] == x);
        }
    }
    if q.take(j).contains(x) {
        let w = choose|w: int| 0 <= w < j && q.take(j)[w] == x;
        assert(q.take(j + 1)[w] == x);
    }
    if q[j] == x {
        assert(q.take(j + 1)[j] == x);
    }
}

/// Once every character that matches at position `k` has been recorded, the
/// map has absorbed position `k` whole.
proof fn lemma_cm_finish(md: Seq<(char, Seq<int>)>, s: Seq<char>, k: int, done: Set<char>)
    requires
        0 <= k,
        cm_partial(md, s, k, done),
        forall|c: char| occurs_at(s, c, k) ==> done.contains(c),
    ensures
        cm_inv(md, s, k + 1),
{
    assert forall|j: int| 0 <= j < md.len() implies {
        let e = #[trigger] md[j];
        e.1 == positions_upto(s, e.0, cm_next_k(k + 1, Set::empty(), e.0)) && e.1.len() > 0
    } by {
        let e = md[j];
        assert(cm_next_k(k + 1, Set::empty(), e.0) == k + 1);
        if !done.contains(e.0) {
            assert(!occurs_at(s, e.0, k));
            assert(positions_upto(s, e.0, k + 1) == positions_upto(s, e.0, k));
        }
    }
    assert forall|c: char|
        positions_upto(s, c, #[trigger] cm_next_k(k + 1, Set::empty(), c)).len()
            > 0 implies cm_has_key(md, c) by {
        if !done.contains(c) {
            assert(!occurs_at(s, c, k));
            assert(positions_upto(s, c, k + 1) == positions_upto(s, c, k));
        }
        assert(positions_upto(s, c, cm_next_k(k, done, c)).len() > 0);
    }
}

impl LineInfo {
    /// The internal indices agree with the line they were built from.
    pub closed spec fn wf(&self) -> bool {
        &&& cm_inv(cm_view(self.char_map@), self.line@, indexed_limit(self.line@))
        &&& self.heat_map@.len() == indexed_limit(self.line@)
        &&& forall|j: int|
            0 <= j < self.heat_map@.len() ==> #[trigger] self.heat_map@[j] == heat_at(self.line@, j)
        &&& self.factor >= 0
    }

    /// Build the per-line index: walk the first `MAX_LEN` characters keeping
    /// the whitespace and class-change bonuses, record every non-whitespace
    /// position under its character (and under the lowercase variants of an
    /// uppercase character), and store the heat at every position.
    /// The stored per-position heats, as mathematical values.
    pub closed spec fn spec_heat_map(&self) -> Seq<int> {
        self.heat_map@.map_values(|h: i64| h as int)
    }

    pub fn new(line: String, factor: i64) -> (r: LineInfo)
        requires
            factor >= 0,
        ensures
            r.wf(),
            r@.line == line@,
            r@.factor == factor as int,
            r.spec_heat_map().len() == indexed_limit(line@),
            forall|j: int|
                0 <= j < indexed_limit(line@) ==> #[trigger] r.spec_heat_map()[j] == heat_at(
                    line@,
                    j,
                ),
    {
        let ghost s = line@;
        let mut char_map: Vec<(char, Vec<usize>)> = Vec::new();
        let mut heat_map: Vec<i64> = Vec::new();

        let n_full = line.as_str().unicode_len();
        let n = if n_full > MAX_LEN {
            MAX_LEN
        } else {
            n_full
        };
        assert(n == indexed_limit(s));

        let mut ws_score: u64 = 0;
        let mut cs_score: u64 = 0;
        let mut cur_class = CharClass::First;
        let mut cs_change = false;

        let mut idx: usize = 0;
        while idx < n
            invariant
                s == line@,
                n == indexed_limit(s),
                n <= line@.len(),
                idx <= n,
                ws_score == state_at(s, idx as int).ws,
                cs_score == state_at(s, idx as int).cs,
                cur_class == state_at(s, idx as int).cls,
                cs_change == state_at(s, idx as int).change,
                heat_map@.len() == idx,
                forall|j: int| 0 <= j < idx ==> #[trigger] heat_map@[j] == heat_at(s, j),
                cm_inv(cm_view(char_map@), s, idx as int),
            decreases n - idx,
        {
            let ghost st = state_at(s, idx as int);
            proof {
                lemma_state_bounded(s, idx as int);
                lemma_state_bounded(s, idx + 1);
            }
            let c = line.as_str().get_char(idx);
            assert(c == s[idx as int]);

            if char_is_whitespace(c) {
                cur_class = CharClass::Whitespace;
                ws_score = 5;
            } else if char_is_numeric(c) {
                if cur_class != CharClass::Numeric {
                    cur_class = CharClass::Numeric;
                    if !cs_change {
                        cs_score = cs_score + 3;
                        cs_change = true;
                    } else {
                        cs_change = false;
                    }
                }
            } else if char_is_alphabetic(c) {
                if cur_class != CharClass::Alphabetic {
                    cur_class = CharClass::Alphabetic;
                    if !cs_change {
                        cs_score = cs_score + 3;
                        cs_change = true;
                    } else {
                        cs_change = false;
                    }
                }
            } else {
                if cur_class != CharClass::Other {
                    cur_class = CharClass::Other;
                    if !cs_change {
                        cs_score = cs_score + 3;
                        cs_change = true;
                    } else {
                        cs_change = false;
                    }
                }
            }
            let ghost stc = classify_step(st, c);
            assert(ws_score == stc.ws && cs_score == stc.cs && cur_class == stc.cls && cs_change
                == stc.change);

            if cur_class != CharClass::Whitespace {
                assert(occurs_at(s, c, idx as int));
                let ghost done0: Set<char> = Set::empty();
                map_push(&mut char_map, c, idx, Ghost(s), Ghost(done0));
                let ghost done1 = done0.insert(c);
                if char_is_uppercase(c) {
                    let lcs = char_to_lowercase(c);
                    let ghost mut done = done1;
                    assert(done =~= done_set(c, lcs@, 0));
                    let mut j: usize = 0;
                    while j < lcs.len()
                        invariant
                            s == line@,
                            idx < indexed_limit(s),
                            c == s[idx as int],
                            !is_ws_char(c),
                            is_upper_char(c),
                            lcs@ == lower_chars_of(c),
                            j <= lcs@.len(),
                            done == done_set(c, lcs@, j as int),
                            cm_partial(cm_view(char_map@), s, idx as int, done),
                        decreases lcs@.len() - j,
                    {
                        let lc = lcs[j];
                        let mut seen = lc == c;
                        let mut w: usize = 0;
                        while w < j
                            invariant
                                w <= j <= lcs@.len(),
                                seen == (lc == c || lcs@.take(w as int).contains(lc)),
                                lc == lcs@[j as int],
                            decreases j - w,
                        {
                            proof {
                                lemma_take_contains(lcs@, w as int, lc);
                            }
                            if lcs[w] == lc {
                                seen = true;
                            }
                            w += 1;
                        }
                        if !seen {
                            assert(occurs_at(s, lc, idx as int)) by {
                                assert(lower_chars_of(c)[j as int] == lc);
                            }
                            map_push(&mut char_map, lc, idx, Ghost(s), Ghost(done));
                            proof {
                                done = done.insert(lc);
                            }
                        }
                        proof {
                            lemma_take_contains(lcs@, j as int, lc);
                            assert forall|x: char|
                                done.contains(x) <==> done_set(c, lcs@, j + 1).contains(x) by {
                                lemma_take_contains(lcs@, j as int, x);
                            }
                            assert(done =~= done_set(c, lcs@, j + 1));
                        }
                        j += 1;
                    }
                    proof {
                        assert forall|c2: char| occurs_at(s, c2, idx as int) implies done.contains(
                            c2,
                        ) by {
                            if c2 != c {
                                assert(lower_chars_of(c).contains(c2));
                                let w = choose|w: int|
                                    0 <= w < lower_chars_of(c).len() && lower_chars_of(c)[w] == c2;
                                assert(lcs@.take(lcs@.len() as int) == lcs@);
                                assert(lcs@.take(lcs@.len() as int).contains(c2));
                            }
                        }
                        lemma_cm_finish(cm_view(char_map@), s, idx as int, done);
                    }
                } else {
                    proof {
                        assert forall|c2: char| occurs_at(s, c2, idx as int) implies done1.contains(
                            c2,
                        ) by {}
                        lemma_cm_finish(cm_view(char_map@), s, idx as int, done1);
                    }
                }
            } else {
                proof {
                    assert(is_ws_char(s[idx as int]));
                    lemma_cm_finish(cm_view(char_map@), s, idx as int, Set::empty());
                }
            }

            heat_map.push((ws_score + cs_score) as i64);
            assert(heat_map@.last() == heat_at(s, idx as int));

            ws_score = ws_score / 2;
            if !cs_change {
                cs_score = cs_score / 2;
            }
            assert(ws_score == decay_step(stc).ws && cs_score == decay_step(stc).cs);
            assert(decay_step(stc) == state_at(s, idx + 1));

            idx += 1;
        }

        LineInfo { line, char_map, heat_map, factor }
    }

    /// The positions at which `item` matches this line; for the first query
    /// character the whole list, otherwise only positions strictly past
    /// `after`.
    #[verifier::loop_isolation(false)]
    #[verifier::rlimit(100)]
    fn get_positions(&self, item: char, after: usize, first: bool) -> (r: Option<Vec<usize>>)
        requires
            self.wf(),
        ensures
            ({
                let want = if first {
                    char_positions(self@.line, item)
                } else {
                    suffix_gt(char_positions(self@.line, item), after as int)
                };
                match r {
                    Some(v) => v@.map_values(|u: usize| u as int) == want && v@.len() > 0,
                    None => want.len() == 0,
                }
            }),
    {
        let ghost s = self.line@;
        let ghost cp = char_positions(s, item);
        proof {
            lemma_positions_upto_props(s, item, indexed_limit(s));
            lemma_suffix_gt(cp, after as int);
        }
        let n = self.char_map.len();
        let mut j: usize = 0;
        while j < n
            invariant
                j <= n,
                forall|a: int| 0 <= a < j ==> (#[trigger] cm_view(self.char_map@)[a]).0 != item,
            decreases n - j,
        {
            if self.char_map[j].0 == item {
                let v = &self.char_map[j].1;
                proof {
                    let md = cm_view(self.char_map@);
                    assert(md[j as int].0 == item);
                    assert(md[j as int].1 == v@.map_values(|u: usize| u as int));
                    assert(cm_next_k(indexed_limit(s), Set::empty(), item) == indexed_limit(s));
                }
                assert(v@.map_values(|u: usize| u as int) == cp);
                if first {
                    let out = v.clone();
                    proof {
                        assert(out@ =~= v@);
                    }
                    return Some(out);
                }
                let vl = v.len();
                let mut w: usize = 0;
                while w < vl
                    invariant
                        w <= vl,
                        forall|u: int| 0 <= u < w ==> #[trigger] v@[u] <= after,
                    decreases vl - w,
                {
                    if v[w] > after {
                        let ghost d = choose|d: int|
                            0 <= d <= cp.len() && suffix_gt(cp, after as int) == cp.skip(d) && (
                            forall|u: int| 0 <= u < d ==> cp[u] <= after as int) && (d < cp.len()
                                ==> cp[d] > after as int);
                        proof {
                            assert(cp[w as int] == v@[w as int] as int);
                            if d < w {
                                assert(v@[d] <= after);
                                assert(cp[d] == v@[d] as int);
                                assert(false);
                            }
                            if w < d {
                                assert(cp[w as int] <= after as int);
                                assert(false);
                            }
                        }
                        let mut out: Vec<usize> = Vec::new();
                        let mut x = w;
                        while x < vl
                            invariant
                                w <= x <= vl,
                                out@ == v@.subrange(w as int, x as int),
                            decreases vl - x,
                        {
                            out.push(v[x]);
                            assert(out@ =~= v@.subrange(w as int, x + 1));
                            x += 1;
                        }
                        proof {
                            assert(out@ =~= v@.skip(w as int));
                            assert(out@.map_values(|u: usize| u as int) =~= cp.skip(w as int));
                        }
                        return Some(out);
                    }
                    w += 1;
                }
                proof {
                    let d = choose|d: int|
                        0 <= d <= cp.len() && suffix_gt(cp, after as int) == cp.skip(d) && (
                        forall|u: int| 0 <= u < d ==> cp[u] <= after as int) && (d < cp.len()
                            ==> cp[d] > after as int);
                    if d < cp.len() {
                        assert(cp[d] == v@[d] as int);
                        assert(false);
                    }
                    assert(suffix_gt(cp, after as int) =~= Seq::<int>::empty());
                }
                return None;
            }
            j += 1;
        }
        proof {
            if cp.len() > 0 {
                assert(cm_next_k(indexed_limit(s), Set::empty(), item) == indexed_limit(s));
                assert(cm_has_key(cm_view(self.char_map@), item));
                assert(false);
            }
            assert(suffix_gt(cp, after as int) == cp);
        }
        None
    }

    /// Enumerate every strictly ascending tuple that picks one position from
    /// each list, or `None` when no such tuple exists.
    #[verifier::loop_isolation(false)]
    #[verifier::rlimit(50)]
    fn permute_positions(lists: &Vec<Vec<usize>>) -> (r: Option<Vec<Vec<usize>>>)
        requires
            lists@.len() > 0,
            forall|k: int| 0 <= k < lists@.len() ==> (#[trigger] lists@[k])@.len() > 0,
        ensures
            ({
                let ll = lists_view(lists@);
                let n = lists@.len() as int;
                match r {
                    Some(ts) => {
                        &&& ts@.len() > 0
                        &&& forall|j: int|
                            0 <= j < ts@.len() ==> ptuple(ll, n, tview((#[trigger] ts@[j])@))
                        &&& forall|t: Seq<int>|
                            ptuple(ll, n, t) ==> #[trigger] contains_tuple(ts@, t)
                    },
                    None => forall|t: Seq<int>| !ptuple(ll, n, t),
                }
            }),
    {
        let ghost ll = lists_view(lists@);
        let ghost n = lists@.len() as int;
        let mut result: Vec<Vec<usize>> = Vec::new();

        let first_len = lists[0].len();
        let mut w: usize = 0;
        while w < first_len
            invariant
                w <= first_len,
                result@.len() == w,
                forall|j: int| 0 <= j < w ==> tview((#[trigger] result@[j])@) == seq![ll[0][j]],
            decreases first_len - w,
        {
            let mut nt: Vec<usize> = Vec::new();
            nt.push(lists[0][w]);
            result.push(nt);
            assert(tview(result@[w as int]@) =~= seq![ll[0][w as int]]);
            w += 1;
        }
        proof {
            assert forall|j: int| 0 <= j < result@.len() implies ptuple(
                ll,
                1,
                tview((#[trigger] result@[j])@),
            ) by {
                assert(tview(result@[j]@) == seq![ll[0][j]]);
                assert(ll[0].contains(ll[0][j]));
            }
            assert forall|t: Seq<int>| ptuple(ll, 1, t) implies #[trigger] contains_tuple(
                result@,
                t,
            ) by {
                assert(ll[0].contains(t[0]));
                let w0 = choose|w0: int| 0 <= w0 < ll[0].len() && ll[0][w0] == t[0];
                assert(t =~= seq![ll[0][w0]]);
                assert(tview(result@[w0]@) == t);
            }
        }

        let mut k: usize = 1;
        while k < lists.len()
            invariant
                1 <= k <= lists@.len(),
                result@.len() > 0,
                forall|j: int|
                    0 <= j < result@.len() ==> ptuple(
                        ll,
                        k as int,
                        tview((#[trigger] result@[j])@),
                    ),
                forall|t: Seq<int>|
                    ptuple(ll, k as int, t) ==> #[trigger] contains_tuple(result@, t),
            decreases lists@.len() - k,
        {
            let ghost kk = k as int;
            let mut buffer: Vec<Vec<usize>> = Vec::new();
            let rl = result.len();
            let mut j: usize = 0;
            while j < rl
                invariant
                    j <= rl,
                    rl == result@.len(),
                    forall|b: int|
                        0 <= b < buffer@.len() ==> ptuple(
                            ll,
                            kk + 1,
                            tview((#[trigger] buffer@[b])@),
                        ),
                    forall|t: Seq<int>|
                        ptuple(ll, kk + 1, t) && (exists|j2: int|
                            0 <= j2 < j && tview((#[trigger] result@[j2])@) == t.take(kk))
                            ==> #[trigger] contains_tuple(buffer@, t),
                decreases rl - j,
            {
                let ghost told = tview(result@[j as int]@);
                proof {
                    assert(ptuple(ll, kk, told));
                }
                let tlen = result[j].len();
                assert(tlen == k);
                let last = result[j][tlen - 1];
                assert(last as int == told[kk - 1]);
                let lkl = lists[k].len();
                assert(ll[kk] == tview(lists@[k as int]@));
                let mut w: usize = 0;
                while w < lkl
                    invariant
                        w <= lkl,
                        forall|b: int|
                            0 <= b < buffer@.len() ==> ptuple(
                                ll,
                                kk + 1,
                                tview((#[trigger] buffer@[b])@),
                            ),
                        forall|t: Seq<int>|
                            ptuple(ll, kk + 1, t) && (exists|j2: int|
                                0 <= j2 < j && tview((#[trigger] result@[j2])@) == t.take(kk))
                                ==> #[trigger] contains_tuple(buffer@, t),
                        forall|t: Seq<int>|
                            ptuple(ll, kk + 1, t) && t.take(kk) == told && (exists|w2: int|
                                0 <= w2 < w && ll[kk][w2] == t[kk]) ==> #[trigger] contains_tuple(
                                buffer@,
                                t,
                            ),
                    decreases lkl - w,
                {
                    let x = lists[k][w];
                    assert(x as int == ll[kk][w as int]);
                    if x > last {
                        let mut nt = result[j].clone();
                        proof {
                            assert(nt@ =~= result@[j as int]@);
                        }
                        nt.push(x);
                        let ghost tnew = tview(nt@);
                        proof {
                            assert(tnew =~= told.push(x as int));
                            assert(ptuple(ll, kk + 1, tnew)) by {
                                assert(ll[kk].contains(x as int));
                                assert forall|a: int, b: int|
                                    0 <= a < b < tnew.len() implies tnew[a] < tnew[b] by {
                                    if b == kk {
                                        assert(tnew[a] == told[a]);
                                        if a < kk - 1 {
                                            assert(told[a] < told[kk - 1]);
                                        }
                                    }
                                }
                            }
                        }
                        let ghost oldbuf = buffer@;
                        buffer.push(nt);
                        proof {
                            assert forall|t: Seq<int>|
                                contains_tuple(oldbuf, t) implies contains_tuple(buffer@, t) by {
                                let b = choose|b: int|
                                    0 <= b < oldbuf.len() && tview(oldbuf[b]@) == t;
                                assert(tview(buffer@[b]@) == t);
                            }
                            assert(contains_tuple(buffer@, tnew)) by {
                                assert(tview(buffer@[buffer@.len() - 1]@) == tnew);
                            }
                            assert forall|t: Seq<int>|
                                ptuple(ll, kk + 1, t) && (exists|j2: int|
                                    0 <= j2 < j && tview((#[trigger] result@[j2])@) == t.take(kk))
                                    implies #[trigger] contains_tuple(buffer@, t) by {
                                assert(contains_tuple(oldbuf, t));
                            }
                            assert forall|t: Seq<int>|
                                ptuple(ll, kk + 1, t) && t.take(kk) == told && (exists|w2: int|
                                    0 <= w2 < w + 1 && ll[kk][w2] == t[kk])
                                    implies #[trigger] contains_tuple(buffer@, t) by {
                                let w2 = choose|w2: int|
                                    0 <= w2 < w + 1 && ll[kk][w2] == t[kk];
                                assert(forall|a: int| 0 <= a < kk ==> t[a] == told[a]);
                                if t[kk] == x as int {
                                    assert(t =~= tnew);
                                } else {
                                    assert(w2 < w);
                                    assert(contains_tuple(oldbuf, t));
                                }
                            }
                        }
                    } else {
                        proof {
                            assert forall|t: Seq<int>|
                                ptuple(ll, kk + 1, t) && t.take(kk) == told && (exists|w2: int|
                                    0 <= w2 < w + 1 && ll[kk][w2] == t[kk])
                                    implies #[trigger] contains_tuple(buffer@, t) by {
                                let w2 = choose|w2: int|
                                    0 <= w2 < w + 1 && ll[kk][w2] == t[kk];
                                if t[kk] == x as int {
                                    assert(t[kk - 1] == told[kk - 1]);
                                    assert(t[kk - 1] < t[kk]);
                                    assert(false);
                                } else {
                                    assert(w2 < w);
                                }
                            }
                        }
                    }
                    w += 1;
                }
                proof {
                    assert forall|t: Seq<int>|
                        ptuple(ll, kk + 1, t) && (exists|j2: int|
                            0 <= j2 < j + 1 && tview((#[trigger] result@[j2])@) == t.take(kk))
                            implies #[trigger] contains_tuple(buffer@, t) by {
                        let j2 = choose|j2: int|
                            0 <= j2 < j + 1 && tview((#[trigger] result@[j2])@) == t.take(kk);
                        if j2 == j {
                            assert(ll[kk].contains(t[kk]));
                            let w2 = choose|w2: int|
                                0 <= w2 < ll[kk].len() && ll[kk][w2] == t[kk];
                            assert(t.take(kk) == told);
                        }
                    }
                }
                j += 1;
            }
            if buffer.len() == 0 {
                proof {
                    assert forall|t: Seq<int>| !ptuple(ll, n, t) by {
                        if ptuple(ll, n, t) {
                            lemma_ptuple_prefix(ll, n, t, kk + 1);
                            let tp = t.take(kk + 1);
                            lemma_ptuple_prefix(ll, kk + 1, tp, kk);
                            assert(tp.take(kk) =~= t.take(kk));
                            assert(contains_tuple(result@, tp.take(kk)));
                            assert(contains_tuple(buffer@, tp));
                            assert(false);
                        }
                    }
                }
                return None;
            }
            proof {
                assert forall|t: Seq<int>|
                    ptuple(ll, kk + 1, t) implies #[trigger] contains_tuple(buffer@, t) by {
                    lemma_ptuple_prefix(ll, kk + 1, t, kk);
                    assert(contains_tuple(result@, t.take(kk)));
                }
            }
            result = buffer;
            k += 1;
        }
        Some(result)
    }

    /// The position lists for every character of `q`, or `None` when some
    /// character has none left.
    #[verifier::loop_isolation(false)]
    fn position_list(&self, q: &str) -> (r: Option<Vec<Vec<usize>>>)
        requires
            self.wf(),
            q@.len() > 0,
        ensures
            ({
                let s = self@.line;
                match r {
                    Some(ls) => {
                        &&& ls@.len() == q@.len()
                        &&& forall|k: int|
                            0 <= k < ls@.len() ==> (#[trigger] ls@[k])@.map_values(
                                |u: usize| u as int,
                            ) == plist_at(s, q@, k) && ls@[k]@.len() > 0
                    },
                    None => plist_at(s, q@, q@.len() - 1).len() == 0,
                }
            }),
    {
        let ghost s = self.line@;
        let mut positions: Vec<Vec<usize>> = Vec::new();
        let mut last: usize = 0;
        let ql = q.unicode_len();
        let mut k: usize = 0;
        while k < ql
            invariant
                k <= ql,
                positions@.len() == k,
                forall|w: int|
                    0 <= w < k ==> (#[trigger] positions@[w])@.map_values(|u: usize| u as int)
                        == plist_at(s, q@, w) && positions@[w]@.len() > 0,
                k > 0 ==> last as int == plist_at(s, q@, k - 1)[0],
            decreases ql - k,
        {
            let c = q.get_char(k);
            proof {
                if k > 0 {
                    assert(positions@[k - 1]@.len() > 0);
                    assert(positions@[k - 1]@.map_values(|u: usize| u as int) == plist_at(
                        s,
                        q@,
                        k - 1,
                    ));
                    assert(plist_at(s, q@, k - 1).len() > 0);
                }
            }
            let got = self.get_positions(c, last, k == 0);
            match got {
                None => {
                    proof {
                        assert(plist_at(s, q@, k as int).len() == 0);
                        lemma_plist_empty_propagates(s, q@, k as int, q@.len() - 1);
                    }
                    return None;
                },
                Some(list) => {
                    assert(list@.map_values(|u: usize| u as int) == plist_at(s, q@, k as int));
                    last = list[0];
                    assert(last as int == plist_at(s, q@, k as int)[0]);
                    positions.push(list);
                },
            }
            k += 1;
        }
        Some(positions)
    }

    /// The score of one chosen tuple: the average gap weighs against the
    /// line, the summed heat weighs for it.
    #[verifier::loop_isolation(false)]
    fn score_position(&self, position: &Vec<usize>) -> (r: i64)
        requires
            self.wf(),
            position@.len() > 0,
            strictly_ascending(tview(position@)),
            forall|w: int|
                0 <= w < position@.len() ==> ((#[trigger] position@[w]) as int) < indexed_limit(
                    self@.line,
                ),
        ensures
            r as int == tuple_score(self@.line, tview(position@)),
    {
        let ghost s = self.line@;
        let ghost t = tview(position@);
        let m = position.len();
        let avg: i64 = if m < 2 {
            0
        } else {
            proof {
                assert(t[0] < t[m - 1]);
            }
            ((position[m - 1] - position[0]) / m) as i64
        };
        assert(avg == if t.len() < 2 {
            0int
        } else {
            (t[t.len() - 1] - t[0]) / (t.len() as int)
        });
        assert(0 <= avg < 80);
        proof {
            assert(forall|a: int| 0 <= a < t.len() ==> t[a] >= 0);
            lemma_ascending_floor(t, m - 1);
            assert(t[m - 1] < MAX_LEN as int);
            assert(m <= MAX_LEN);
        }

        let mut heat: i64 = 0;
        let mut w: usize = 0;
        while w < m
            invariant
                w <= m,
                heat == spec_heat_sum(s, t.take(w as int)),
                0 <= heat <= 14 * w,
            decreases m - w,
        {
            let p = position[w];
            proof {
                lemma_heat_at_bounds(s, p as int);
                assert(self.heat_map@[p as int] == heat_at(s, p as int));
                assert(t.take(w + 1).drop_last() =~= t.take(w as int));
                assert(t.take(w + 1).last() == p as int);
            }
            heat = heat + self.heat_map[p];
            w += 1;
        }
        assert(t.take(m as int) =~= t);
        avg * DIST_WEIGHT + heat * HEAT_WEIGHT
    }

    /// The best score over a non-empty collection of tuples.
    #[verifier::loop_isolation(false)]
    fn best_position(&self, positions: &Vec<Vec<usize>>) -> (r: i64)
        requires
            self.wf(),
            positions@.len() > 0,
            forall|j: int|
                0 <= j < positions@.len() ==> {
                    let v = (#[trigger] positions@[j])@;
                    v.len() > 0 && strictly_ascending(tview(v)) && (forall|w: int|
                        0 <= w < v.len() ==> ((#[trigger] v[w]) as int) < indexed_limit(
                            self@.line,
                        ))
                },
        ensures
            exists|j: int|
                0 <= j < positions@.len() && r as int == tuple_score(
                    self@.line,
                    tview((#[trigger] positions@[j])@),
                ),
            forall|j: int|
                0 <= j < positions@.len() ==> tuple_score(
                    self@.line,
                    tview((#[trigger] positions@[j])@),
                ) <= r as int,
    {
        let ghost s = self.line@;
        let mut best = self.score_position(&positions[0]);
        let mut j: usize = 1;
        while j < positions.len()
            invariant
                1 <= j <= positions@.len(),
                exists|w: int|
                    0 <= w < j && best as int == tuple_score(
                        s,
                        tview((#[trigger] positions@[w])@),
                    ),
                forall|w: int|
                    0 <= w < j ==> tuple_score(s, tview((#[trigger] positions@[w])@)) <= best
                        as int,
            decreases positions@.len() - j,
        {
            let sc = self.score_position(&positions[j]);
            if sc > best {
                best = sc;
            }
            j += 1;
        }
        best
    }

    /// The score of this line against query `q`: the best score of any valid
    /// tuple, or `None` when `q` does not match the line.
    pub fn score(&self, q: &str) -> (r: Option<i64>)
        requires
            self.wf(),
        ensures
            match r {
                Some(sc) => line_matches(self@.line, q@) && is_line_score(
                    self@.line,
                    q@,
                    sc as int,
                ),
                None => !line_matches(self@.line, q@),
            },
    {
        let ghost s = self.line@;
        if q.unicode_len() == 0 {
            return None;
        }
        let lists = match self.position_list(q) {
            None => {
                proof {
                    if line_matches(s, q@) {
                        let t = choose|t: Seq<int>| valid_tuple(s, q@, t);
                        lemma_tuple_in_plists(s, q@, t, q@.len() - 1);
                    }
                }
                return None;
            },
            Some(lists) => lists,
        };
        let ghost ll = lists_view(lists@);
        let ghost n = q@.len() as int;
        proof {
            assert(ll =~= Seq::new(q@.len(), |k: int| plist_at(s, q@, k)));
            assert forall|t: Seq<int>| valid_tuple(s, q@, t) implies ptuple(ll, n, t) by {
                assert forall|k: int| 0 <= k < n implies ll[k].contains(#[trigger] t[k]) by {
                    lemma_tuple_in_plists(s, q@, t, k);
                }
            }
            assert forall|t: Seq<int>| ptuple(ll, n, t) implies valid_tuple(s, q@, t) by {
                assert forall|k: int| 0 <= k < n implies char_positions(s, q@[k]).contains(
                    #[trigger] t[k],
                ) by {
                    lemma_plist_at_props(s, q@, k);
                    assert(ll[k] == plist_at(s, q@, k));
                }
            }
        }
        let tuples = match LineInfo::permute_positions(&lists) {
            None => {
                proof {
                    if line_matches(s, q@) {
                        let t = choose|t: Seq<int>| valid_tuple(s, q@, t);
                        assert(ptuple(ll, n, t));
                    }
                }
                return None;
            },
            Some(ts) => ts,
        };
        proof {
            assert forall|j: int| 0 <= j < tuples@.len() implies {
                let v = (#[trigger] tuples@[j])@;
                v.len() > 0 && strictly_ascending(tview(v)) && (forall|w: int|
                    0 <= w < v.len() ==> ((#[trigger] v[w]) as int) < indexed_limit(s))
            } by {
                let v = tuples@[j]@;
                assert(ptuple(ll, n, tview(v)));
                assert(valid_tuple(s, q@, tview(v)));
                assert forall|w: int| 0 <= w < v.len() implies ((#[trigger] v[w]) as int)
                    < indexed_limit(s) by {
                    assert(char_positions(s, q@[w]).contains(tview(v)[w]));
                    lemma_positions_upto_props(s, q@[w], indexed_limit(s));
                    let x = choose|x: int|
                        0 <= x < char_positions(s, q@[w]).len() && char_positions(s, q@[w])[x]
                            == tview(v)[w];
                    assert(tview(v)[w] == v[w] as int);
                }
            }
        }
        let best = self.best_position(&tuples);
        proof {
            let jw = choose|j: int|
                0 <= j < tuples@.len() && best as int == tuple_score(
                    s,
                    tview((#[trigger] tuples@[j])@),
                );
            assert(valid_tuple(s, q@, tview(tuples@[jw]@)));
            assert forall|t: Seq<int>| valid_tuple(s, q@, t) implies tuple_score(s, t) <= best
                as int by {
                assert(ptuple(ll, n, t));
                assert(contains_tuple(tuples@, t));
                let j2 = choose|j2: int| 0 <= j2 < tuples@.len() && tview(tuples@[j2]@) == t;
            }
        }
        Some(best)
    }
}

} // verus!
