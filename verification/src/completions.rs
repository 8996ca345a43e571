use vstd::prelude::*;

use crate::constants::COMPLETION_SCORE_FACTOR;

verus! {

broadcast use vstd::std_specs::vec::vec_clone_deep_view_proof;

/// A directory path as a sequence of components, each a string.
pub type PathComps = Seq<Seq<char>>;

/// The store as a mathematical value: lines, each with its remembered
/// (path, weight) records in order.
pub type CompView = Seq<(Seq<char>, Seq<(PathComps, nat)>)>;

/// How many leading components two paths share.
pub open spec fn common_prefix(a: PathComps, b: PathComps) -> nat
    decreases a.len(),
{
    if a.len() == 0 || b.len() == 0 || a[0] != b[0] {
        0
    } else {
        1 + common_prefix(a.drop_first(), b.drop_first())
    }
}

/// The contribution of one stored record to the affinity of path `p`:
/// `(2B - P) * weight` when twice the shared prefix exceeds the component
/// count of `p`, else nothing.
pub open spec fn completion_term(e: (PathComps, nat), p: PathComps) -> nat {
    let b2 = 2 * common_prefix(e.0, p);
    if b2 > p.len() {
        ((b2 - p.len()) * e.1) as nat
    } else {
        0
    }
}

pub open spec fn sum_terms(paths: Seq<(PathComps, nat)>, p: PathComps) -> nat
    decreases paths.len(),
{
    if paths.len() == 0 {
        0
    } else {
        completion_term(paths[0], p) + sum_terms(paths.drop_first(), p)
    }
}

/// The records stored for `line`, or none.
pub open spec fn lookup_paths(cv: CompView, line: Seq<char>) -> Seq<(PathComps, nat)>
    decreases cv.len(),
{
    if cv.len() == 0 {
        Seq::empty()
    } else if cv[0].0 == line {
        cv[0].1
    } else {
        lookup_paths(cv.drop_first(), line)
    }
}

/// The affinity of `line` at path `p`: the weighted sum over its records,
/// scaled by the completion factor.
pub open spec fn completion_score(cv: CompView, line: Seq<char>, p: PathComps) -> nat {
    (COMPLETION_SCORE_FACTOR as nat) * sum_terms(lookup_paths(cv, line), p)
}

/// One more choice of `line` at path `p`: the record's weight grows by one
/// (staying put once it cannot), or a fresh record of weight one is appended.
pub open spec fn add_paths(paths: Seq<(PathComps, nat)>, p: PathComps) -> Seq<(PathComps, nat)>
    decreases paths.len(),
{
    if paths.len() == 0 {
        seq![(p, 1nat)]
    } else if paths[0].0 == p {
        seq![(paths[0].0, bump_weight(paths[0].1))] + paths.drop_first()
    } else {
        seq![paths[0]] + add_paths(paths.drop_first(), p)
    }
}

pub open spec fn bump_weight(w: nat) -> nat {
    if w + 1 <= u64::MAX as nat {
        w + 1
    } else {
        w
    }
}

pub open spec fn add_to(cv: CompView, line: Seq<char>, p: PathComps) -> CompView
    decreases cv.len(),
{
    if cv.len() == 0 {
        seq![(line, seq![(p, 1nat)])]
    } else if cv[0].0 == line {
        seq![(cv[0].0, add_paths(cv[0].1, p))] + cv.drop_first()
    } else {
        seq![cv[0]] + add_to(cv.drop_first(), line, p)
    }
}

/// Appending a record to a line's list: what loading a stored file does.
pub open spec fn append_to(cv: CompView, line: Seq<char>, p: PathComps, w: nat) -> CompView
    decreases cv.len(),
{
    if cv.len() == 0 {
        seq![(line, seq![(p, w)])]
    } else if cv[0].0 == line {
        seq![(cv[0].0, cv[0].1.push((p, w)))] + cv.drop_first()
    } else {
        seq![cv[0]] + append_to(cv.drop_first(), line, p, w)
    }
}

/// The affinity is never negative, whatever is stored.
pub proof fn lemma_completion_score_nonneg(cv: CompView, line: Seq<char>, p: PathComps)
    ensures
        completion_score(cv, line, p) >= 0,
{
}

proof fn lemma_lookup_add_to(cv: CompView, line: Seq<char>, p: PathComps)
    ensures
        lookup_paths(add_to(cv, line, p), line) == add_paths(lookup_paths(cv, line), p),
    decreases cv.len(),
{
    if cv.len() == 0 {
        let nv = add_to(cv, line, p);
        assert(nv[0].0 == line);
        assert(lookup_paths(nv, line) == seq![(p, 1nat)]);
        assert(add_paths(lookup_paths(cv, line), p) == seq![(p, 1nat)]);
    } else if cv[0].0 == line {
        let nv = add_to(cv, line, p);
        assert(nv[0] == (cv[0].0, add_paths(cv[0].1, p)));
        assert(lookup_paths(nv, line) == add_paths(cv[0].1, p));
    } else {
        lemma_lookup_add_to(cv.drop_first(), line, p);
        let nv = add_to(cv, line, p);
        assert(nv[0] == cv[0]);
        assert(nv.drop_first() =~= add_to(cv.drop_first(), line, p));
        assert(lookup_paths(nv, line) == lookup_paths(nv.drop_first(), line));
    }
}

proof fn lemma_sum_terms_snoc(paths: Seq<(PathComps, nat)>, e: (PathComps, nat), p: PathComps)
    ensures
        sum_terms(paths.push(e), p) == sum_terms(paths, p) + completion_term(e, p),
    decreases paths.len(),
{
    assert(sum_terms(paths.push(e), p) == completion_term(paths.push(e)[0], p) + sum_terms(
        paths.push(e).drop_first(),
        p,
    ));
    if paths.len() == 0 {
        assert(paths.push(e)[0] == e);
        assert(paths.push(e).drop_first() =~= Seq::<(PathComps, nat)>::empty());
        assert(sum_terms(Seq::<(PathComps, nat)>::empty(), p) == 0);
    } else {
        assert(paths.push(e)[0] == paths[0]);
        assert(paths.push(e).drop_first() =~= paths.drop_first().push(e));
        lemma_sum_terms_snoc(paths.drop_first(), e, p);
        assert(sum_terms(paths, p) == completion_term(paths[0], p) + sum_terms(
            paths.drop_first(),
            p,
        ));
    }
}

proof fn lemma_add_paths_monotone(paths: Seq<(PathComps, nat)>, p: PathComps)
    ensures
        sum_terms(add_paths(paths, p), p) >= sum_terms(paths, p),
    decreases paths.len(),
{
    if paths.len() == 0 {
        assert(sum_terms(add_paths(paths, p), p) == completion_term((p, 1nat), p) + sum_terms(
            Seq::<(PathComps, nat)>::empty(),
            p,
        )) by {
            assert(add_paths(paths, p)[0] == (p, 1nat));
            assert(add_paths(paths, p).drop_first() =~= Seq::<(PathComps, nat)>::empty());
        }
    } else if paths[0].0 == p {
        let np = add_paths(paths, p);
        assert(np[0] == (paths[0].0, bump_weight(paths[0].1)));
        assert(np.drop_first() =~= paths.drop_first());
        assert(completion_term(np[0], p) >= completion_term(paths[0], p)) by {
            let b2 = 2 * common_prefix(paths[0].0, p);
            if b2 > p.len() {
                assert((b2 - p.len()) * bump_weight(paths[0].1) >= (b2 - p.len()) * paths[0].1)
                    by (nonlinear_arith)
                    requires
                        bump_weight(paths[0].1) >= paths[0].1,
                        b2 > p.len(),
                ;
            }
        }
    } else {
        let np = add_paths(paths, p);
        assert(np[0] == paths[0]);
        assert(np.drop_first() =~= add_paths(paths.drop_first(), p));
        lemma_add_paths_monotone(paths.drop_first(), p);
    }
}

/// Remembering one more choice of `line` at `p` never lowers the affinity of
/// `line` at `p`.
pub proof fn lemma_add_completion_monotone(cv: CompView, line: Seq<char>, p: PathComps)
    ensures
        completion_score(add_to(cv, line, p), line, p) >= completion_score(cv, line, p),
{
    lemma_lookup_add_to(cv, line, p);
    lemma_add_paths_monotone(lookup_paths(cv, line), p);
    let a = sum_terms(add_paths(lookup_paths(cv, line), p), p);
    let b = sum_terms(lookup_paths(cv, line), p);
    assert((COMPLETION_SCORE_FACTOR as nat) * a >= (COMPLETION_SCORE_FACTOR as nat) * b)
        by (nonlinear_arith)
        requires
            a >= b,
    ;
}

proof fn lemma_sum_terms_zero(paths: Seq<(PathComps, nat)>, p: PathComps)
    requires
        forall|j: int|
            0 <= j < paths.len() ==> 2 * common_prefix((#[trigger] paths[j]).0, p) <= p.len(),
    ensures
        sum_terms(paths, p) == 0,
    decreases paths.len(),
{
    if paths.len() > 0 {
        assert(completion_term(paths[0], p) == 0);
        assert(forall|j: int|
            0 <= j < paths.drop_first().len() ==> (#[trigger] paths.drop_first()[j]) == paths[j
                + 1]);
        lemma_sum_terms_zero(paths.drop_first(), p);
    }
}

proof fn lemma_lookup_at(cv: CompView, line: Seq<char>, i: int)
    requires
        0 <= i < cv.len(),
        cv[i].0 == line,
        forall|a: int| 0 <= a < i ==> (#[trigger] cv[a]).0 != line,
    ensures
        lookup_paths(cv, line) == cv[i].1,
    decreases i,
{
    if i > 0 {
        assert(forall|a: int|
            0 <= a < i - 1 ==> (#[trigger] cv.drop_first()[a]) == cv[a + 1]);
        lemma_lookup_at(cv.drop_first(), line, i - 1);
    }
}

proof fn lemma_lookup_absent(cv: CompView, line: Seq<char>)
    requires
        forall|a: int| 0 <= a < cv.len() ==> (#[trigger] cv[a]).0 != line,
    ensures
        lookup_paths(cv, line) == Seq::<(PathComps, nat)>::empty(),
    decreases cv.len(),
{
    if cv.len() > 0 {
        assert(forall|a: int|
            0 <= a < cv.drop_first().len() ==> (#[trigger] cv.drop_first()[a]) == cv[a + 1]);
        lemma_lookup_absent(cv.drop_first(), line);
    }
}

proof fn lemma_add_to_at(cv: CompView, line: Seq<char>, p: PathComps, i: int)
    requires
        0 <= i < cv.len(),
        cv[i].0 == line,
        forall|a: int| 0 <= a < i ==> (#[trigger] cv[a]).0 != line,
    ensures
        add_to(cv, line, p) == cv.update(i, (cv[i].0, add_paths(cv[i].1, p))),
    decreases i,
{
    if i == 0 {
        assert(add_to(cv, line, p) =~= cv.update(0, (cv[0].0, add_paths(cv[0].1, p))));
    } else {
        assert(forall|a: int|
            0 <= a < i - 1 ==> (#[trigger] cv.drop_first()[a]) == cv[a + 1]);
        lemma_add_to_at(cv.drop_first(), line, p, i - 1);
        assert(add_to(cv, line, p) =~= cv.update(i, (cv[i].0, add_paths(cv[i].1, p))));
    }
}

proof fn lemma_add_to_absent(cv: CompView, line: Seq<char>, p: PathComps)
    requires
        forall|a: int| 0 <= a < cv.len() ==> (#[trigger] cv[a]).0 != line,
    ensures
        add_to(cv, line, p) == cv.push((line, seq![(p, 1nat)])),
    decreases cv.len(),
{
    if cv.len() == 0 {
        assert(add_to(cv, line, p) =~= cv.push((line, seq![(p, 1nat)])));
    } else {
        assert(forall|a: int|
            0 <= a < cv.drop_first().len() ==> (#[trigger] cv.drop_first()[a]) == cv[a + 1]);
        lemma_add_to_absent(cv.drop_first(), line, p);
        assert(add_to(cv, line, p) =~= cv.push((line, seq![(p, 1nat)])));
    }
}

proof fn lemma_append_to_at(cv: CompView, line: Seq<char>, p: PathComps, w: nat, i: int)
    requires
        0 <= i < cv.len(),
        cv[i].0 == line,
        forall|a: int| 0 <= a < i ==> (#[trigger] cv[a]).0 != line,
    ensures
        append_to(cv, line, p, w) == cv.update(i, (cv[i].0, cv[i].1.push((p, w)))),
    decreases i,
{
    if i == 0 {
        assert(append_to(cv, line, p, w) =~= cv.update(0, (cv[0].0, cv[0].1.push((p, w)))));
    } else {
        assert(forall|a: int|
            0 <= a < i - 1 ==> (#[trigger] cv.drop_first()[a]) == cv[a + 1]);
        lemma_append_to_at(cv.drop_first(), line, p, w, i - 1);
        assert(append_to(cv, line, p, w) =~= cv.update(i, (cv[i].0, cv[i].1.push((p, w)))));
    }
}

proof fn lemma_append_to_absent(cv: CompView, line: Seq<char>, p: PathComps, w: nat)
    requires
        forall|a: int| 0 <= a < cv.len() ==> (#[trigger] cv[a]).0 != line,
    ensures
        append_to(cv, line, p, w) == cv.push((line, seq![(p, w)])),
    decreases cv.len(),
{
    if cv.len() == 0 {
        assert(append_to(cv, line, p, w) =~= cv.push((line, seq![(p, w)])));
    } else {
        assert(forall|a: int|
            0 <= a < cv.drop_first().len() ==> (#[trigger] cv.drop_first()[a]) == cv[a + 1]);
        lemma_append_to_absent(cv.drop_first(), line, p, w);
        assert(append_to(cv, line, p, w) =~= cv.push((line, seq![(p, w)])));
    }
}

proof fn lemma_add_paths_at(paths: Seq<(PathComps, nat)>, p: PathComps, j: int)
    requires
        0 <= j < paths.len(),
        paths[j].0 == p,
        forall|a: int| 0 <= a < j ==> (#[trigger] paths[a]).0 != p,
    ensures
        add_paths(paths, p) == paths.update(j, (paths[j].0, bump_weight(paths[j].1))),
    decreases j,
{
    if j == 0 {
        assert(add_paths(paths, p) =~= paths.update(0, (paths[0].0, bump_weight(paths[0].1))));
    } else {
        assert(forall|a: int|
            0 <= a < j - 1 ==> (#[trigger] paths.drop_first()[a]) == paths[a + 1]);
        lemma_add_paths_at(paths.drop_first(), p, j - 1);
        assert(add_paths(paths, p) =~= paths.update(j, (paths[j].0, bump_weight(paths[j].1))));
    }
}

proof fn lemma_add_paths_absent(paths: Seq<(PathComps, nat)>, p: PathComps)
    requires
        forall|a: int| 0 <= a < paths.len() ==> (#[trigger] paths[a]).0 != p,
    ensures
        add_paths(paths, p) == paths.push((p, 1nat)),
    decreases paths.len(),
{
    if paths.len() == 0 {
        assert(add_paths(paths, p) =~= paths.push((p, 1nat)));
    } else {
        assert(forall|a: int|
            0 <= a < paths.drop_first().len() ==> (#[trigger] paths.drop_first()[a]) == paths[a
                + 1]);
        lemma_add_paths_absent(paths.drop_first(), p);
        assert(add_paths(paths, p) =~= paths.push((p, 1nat)));
    }
}

proof fn lemma_common_prefix_at(a: PathComps, b: PathComps, c: int)
    requires
        0 <= c <= a.len(),
        c <= b.len(),
        forall|w: int| 0 <= w < c ==> a[w] == b[w],
        c < a.len() && c < b.len() ==> a[c] != b[c],
    ensures
        common_prefix(a, b) == c,
    decreases c,
{
    if c == 0 {
    } else {
        assert(a[0] == b[0]);
        assert(forall|w: int|
            0 <= w < c - 1 ==> (#[trigger] a.drop_first()[w]) == a[w + 1] && b.drop_first()[w]
                == b[w + 1]);
        lemma_common_prefix_at(a.drop_first(), b.drop_first(), c - 1);
    }
}

/// When every record stored for `line` shares fewer than half of the leading
/// components of `p` (rounded up), the affinity of `line` at `p` is zero.
pub proof fn lemma_completion_score_zero(cv: CompView, line: Seq<char>, p: PathComps)
    requires
        forall|j: int|
            0 <= j < lookup_paths(cv, line).len() ==> common_prefix(
                (#[trigger] lookup_paths(cv, line)[j]).0,
                p,
            ) < (p.len() + 1) / 2,
    ensures
        completion_score(cv, line, p) == 0,
{
    let paths = lookup_paths(cv, line);
    assert forall|j: int|
        0 <= j < paths.len() implies 2 * common_prefix((#[trigger] paths[j]).0, p)
        <= p.len() by {
        assert(common_prefix(paths[j].0, p) < (p.len() + 1) / 2);
    }
    lemma_sum_terms_zero(paths, p);
}

pub open spec fn paths_rep(v: Seq<(Vec<String>, u64)>) -> Seq<(PathComps, nat)> {
    Seq::new(v.len(), |j: int| (v[j].0.deep_view(), v[j].1 as nat))
}

pub open spec fn cview(m: Seq<(String, Vec<(Vec<String>, u64)>)>) -> CompView {
    Seq::new(m.len(), |i: int| (m[i].0@, paths_rep(m[i].1@)))
}

/// How far `x` exceeds what a `u128` can hold, clamped.
pub open spec fn clamp128(x: nat) -> nat {
    if x <= u128::MAX as nat {
        x
    } else {
        u128::MAX as nat
    }
}

/// Compare two paths component by component.
#[verifier::loop_isolation(false)]
fn paths_equal(a: &Vec<String>, b: &Vec<String>) -> (r: bool)
    ensures
        r == (a.deep_view() == b.deep_view()),
{
    if a.len() != b.len() {
        proof {
            assert(a.deep_view().len() != b.deep_view().len());
        }
        return false;
    }
    let n = a.len();
    let mut i: usize = 0;
    while i < n
        invariant
            i <= n,
            forall|w: int| 0 <= w < i ==> a.deep_view()[w] == b.deep_view()[w],
        decreases n - i,
    {
        if !(a[i] == b[i]) {
            proof {
                assert(a.deep_view()[i as int] != b.deep_view()[i as int]);
            }
            return false;
        }
        i += 1;
    }
    proof {
        assert(a.deep_view() =~= b.deep_view());
    }
    true
}

/// Count the leading components two paths share.
#[verifier::loop_isolation(false)]
fn common_count(a: &Vec<String>, b: &Vec<String>) -> (c: usize)
    ensures
        c as nat == common_prefix(a.deep_view(), b.deep_view()),
        c <= b.len(),
{
    let n = if a.len() < b.len() {
        a.len()
    } else {
        b.len()
    };
    let mut i: usize = 0;
    while i < n
        invariant
            i <= n,
            forall|w: int| 0 <= w < i ==> a.deep_view()[w] == b.deep_view()[w],
        decreases n - i,
    {
        if !(a[i] == b[i]) {
            proof {
                lemma_common_prefix_at(a.deep_view(), b.deep_view(), i as int);
            }
            return i;
        }
        i += 1;
    }
    proof {
        lemma_common_prefix_at(a.deep_view(), b.deep_view(), n as int);
    }
    n
}

/// The first record of `path` in a path list, if any.
#[verifier::loop_isolation(false)]
fn find_path(pvec: &Vec<(Vec<String>, u64)>, path: &Vec<String>) -> (r: Option<usize>)
    ensures
        match r {
            Some(j) => j < pvec@.len() && paths_rep(pvec@)[j as int].0 == path.deep_view() && (
            forall|a: int| 0 <= a < j ==> (#[trigger] paths_rep(pvec@)[a]).0 != path.deep_view()),
            None => forall|a: int|
                0 <= a < pvec@.len() ==> (#[trigger] paths_rep(pvec@)[a]).0 != path.deep_view(),
        },
{
    let n = pvec.len();
    let mut j: usize = 0;
    while j < n
        invariant
            j <= n,
            forall|a: int| 0 <= a < j ==> (#[trigger] paths_rep(pvec@)[a]).0 != path.deep_view(),
        decreases n - j,
    {
        if paths_equal(&pvec[j].0, path) {
            proof {
                assert(paths_rep(pvec@)[j as int].0 == path.deep_view());
            }
            return Some(j);
        }
        proof {
            assert(paths_rep(pvec@)[j as int].0 == pvec@[j as int].0.deep_view());
        }
        j += 1;
    }
    None
}

/// The persistent record of which lines were chosen from which directories:
/// for each line, an ordered list of (path, weight) records.
pub struct Completions {
    info: Vec<(String, Vec<(Vec<String>, u64)>)>,
}

impl View for Completions {
    type V = CompView;

    closed spec fn view(&self) -> CompView {
        cview(self.info@)
    }
}

impl Completions {
    pub fn new() -> (r: Completions)
        ensures
            r@ == Seq::<(Seq<char>, Seq<(PathComps, nat)>)>::empty(),
    {
        let r = Completions { info: Vec::new() };
        proof {
            assert(r@ =~= Seq::<(Seq<char>, Seq<(PathComps, nat)>)>::empty());
        }
        r
    }

    /// The index of the entry for `line`, if any.
    #[verifier::loop_isolation(false)]
    fn find_line(&self, line: &String) -> (r: Option<usize>)
        ensures
            match r {
                Some(i) => i < self@.len() && self@[i as int].0 == line@ && (forall|a: int|
                    0 <= a < i ==> (#[trigger] self@[a]).0 != line@),
                None => forall|a: int| 0 <= a < self@.len() ==> (#[trigger] self@[a]).0 != line@,
            },
    {
        let n = self.info.len();
        let mut i: usize = 0;
        while i < n
            invariant
                i <= n,
                forall|a: int| 0 <= a < i ==> (#[trigger] self@[a]).0 != line@,
            decreases n - i,
        {
            if self.info[i].0 == *line {
                assert(self@[i as int].0 == line@);
                return Some(i);
            }
            assert(self@[i as int].0 != line@);
            i += 1;
        }
        None
    }

    /// The affinity of `line` at `path`: for each stored record, twice the
    /// shared leading components less the component count of `path`, floored
    /// at zero and weighted; the sum scaled by the completion factor. Values
    /// beyond what a `u64` holds saturate.
    #[verifier::loop_isolation(false)]
    pub fn get_score(&self, line: &String, path: &Vec<String>) -> (r: u64)
        ensures
            ({
                let sc = completion_score(self@, line@, path.deep_view());
                if sc <= u64::MAX as nat {
                    r as nat == sc
                } else {
                    r == u64::MAX
                }
            }),
    {
        let ghost p = path.deep_view();
        let idx = match self.find_line(line) {
            None => {
                proof {
                    lemma_lookup_absent(self@, line@);
                }
                return 0;
            },
            Some(i) => i,
        };
        proof {
            lemma_lookup_at(self@, line@, idx as int);
        }
        let paths = &self.info[idx].1;
        let ghost pv = paths_rep(paths@);
        proof {
            assert(self@[idx as int].1 == pv);
        }

        let n = paths.len();
        let mut acc: u128 = 0;
        let ghost mut exact: nat = 0nat;
        let mut j: usize = 0;
        while j < n
            invariant
                j <= n,
                exact == sum_terms(pv.take(j as int), p),
                acc as nat == clamp128(exact),
            decreases n - j,
        {
            let c = common_count(&paths[j].0, path);
            let w = paths[j].1;
            proof {
                assert(pv[j as int] == (paths@[j as int].0.deep_view(), paths@[j as int].1
                    as nat));
                assert(common_prefix(pv[j as int].0, p) == c as nat);
            }
            let b2: u128 = 2 * (c as u128);
            let plen: u128 = path.len() as u128;
            let term: u128 = if b2 > plen {
                let d = b2 - plen;
                match d.checked_mul(w as u128) {
                    Some(t) => t,
                    None => u128::MAX,
                }
            } else {
                0
            };
            let ghost term_exact = completion_term(pv[j as int], p);
            proof {
                assert(term as nat == clamp128(term_exact));
            }
            let ghost old_exact = exact;
            proof {
                assert(pv.take(j + 1) =~= pv.take(j as int).push(pv[j as int]));
                lemma_sum_terms_snoc(pv.take(j as int), pv[j as int], p);
                exact = exact + term_exact;
            }
            acc = acc.saturating_add(term);
            proof {
                assert(acc as nat == clamp128(exact)) by {
                    if old_exact + term_exact <= u128::MAX as nat {
                    } else {
                    }
                }
            }
            j += 1;
        }
        proof {
            assert(pv.take(n as int) =~= pv);
        }

        let total: u128 = match acc.checked_mul(COMPLETION_SCORE_FACTOR as u128) {
            Some(t) => t,
            None => u128::MAX,
        };
        let ghost sc = completion_score(self@, line@, p);
        proof {
            assert(sc == 10 * exact);
            assert(total as nat == clamp128(sc)) by {
                if exact > u128::MAX as nat {
                    assert(sc >= exact);
                }
            }
        }
        if total > u64::MAX as u128 {
            proof {
                assert(sc > u64::MAX as nat);
            }
            u64::MAX
        } else {
            proof {
                assert(total as nat == sc);
            }
            total as u64
        }
    }

    /// Remember that `line` was chosen at `path`: bump the weight of the
    /// matching record, or append a fresh one of weight one.
    #[verifier::loop_isolation(false)]
    pub fn add_completion(&mut self, line: String, path: Vec<String>)
        ensures
            final(self)@ == add_to(old(self)@, line@, path.deep_view()),
    {
        let ghost p = path.deep_view();
        let ghost ov = self@;
        match self.find_line(&line) {
            None => {
                proof {
                    lemma_add_to_absent(ov, line@, p);
                }
                let mut pe: Vec<(Vec<String>, u64)> = Vec::new();
                pe.push((path, 1));
                proof {
                    assert(paths_rep(pe@) =~= seq![(p, 1nat)]);
                }
                self.info.push((line, pe));
                proof {
                    assert(self@ =~= ov.push((line@, seq![(p, 1nat)])));
                }
            },
            Some(i) => {
                proof {
                    lemma_add_to_at(ov, line@, p, i as int);
                }
                let (ln, mut pvec) = self.info.remove(i);
                let ghost opv = paths_rep(pvec@);
                proof {
                    assert(opv == ov[i as int].1);
                }
                match find_path(&pvec, &path) {
                    Some(found) => {
                        proof {
                            lemma_add_paths_at(opv, p, found as int);
                        }
                        let (pp, w) = pvec.remove(found);
                        let w2 = if w < u64::MAX {
                            w + 1
                        } else {
                            w
                        };
                        pvec.insert(found, (pp, w2));
                        proof {
                            assert(paths_rep(pvec@) =~= opv.update(
                                found as int,
                                (opv[found as int].0, bump_weight(opv[found as int].1)),
                            ));
                        }
                    },
                    None => {
                        proof {
                            lemma_add_paths_absent(opv, p);
                        }
                        pvec.push((path, 1));
                        proof {
                            assert(paths_rep(pvec@) =~= opv.push((p, 1nat)));
                        }
                    },
                }
                self.info.insert(i, (ln, pvec));
                proof {
                    assert(self@ =~= ov.update(i as int, (ov[i as int].0, paths_rep(pvec@))));
                }
            },
        }
    }

    /// The stored records, line by line, for persistence.
    #[verifier::loop_isolation(false)]
    pub fn export(&self) -> (r: Vec<(String, Vec<(Vec<String>, u64)>)>)
        ensures
            cview(r@) == self@,
    {
        let mut out: Vec<(String, Vec<(Vec<String>, u64)>)> = Vec::new();
        let n = self.info.len();
        let mut i: usize = 0;
        while i < n
            invariant
                i <= n,
                out@.len() == i,
                forall|a: int|
                    0 <= a < i ==> (#[trigger] cview(out@)[a]) == cview(self.info@)[a],
            decreases n - i,
        {
            let line = self.info[i].0.clone();
            let src = &self.info[i].1;
            let m = src.len();
            let mut entries: Vec<(Vec<String>, u64)> = Vec::new();
            let mut j: usize = 0;
            while j < m
                invariant
                    j <= m,
                    m == src@.len(),
                    entries@.len() == j,
                    forall|b: int|
                        0 <= b < j ==> (#[trigger] paths_rep(entries@)[b]) == paths_rep(src@)[b],
                decreases m - j,
            {
                let path = src[j].0.clone();
                proof {
                    assert(path.deep_view() =~= src@[j as int].0.deep_view());
                }
                let ghost olde = entries@;
                entries.push((path, src[j].1));
                proof {
                    assert forall|b: int| 0 <= b < j + 1 implies (#[trigger] paths_rep(entries@)[
                    b]) == paths_rep(src@)[b] by {
                        if b < j {
                            assert(entries@[b] == olde[b]);
                            assert(paths_rep(olde)[b] == paths_rep(src@)[b]);
                        } else {
                            assert(paths_rep(entries@)[b] == (
                                path.deep_view(),
                                src@[j as int].1 as nat,
                            ));
                        }
                    }
                }
                j += 1;
            }
            let ghost oldo = out@;
            let ghost ev = entries@;
            out.push((line, entries));
            proof {
                assert(paths_rep(ev) =~= paths_rep(src@));
                assert forall|a: int| 0 <= a < i + 1 implies (#[trigger] cview(out@)[a]) == cview(
                    self.info@,
                )[a] by {
                    if a < i {
                        assert(out@[a] == oldo[a]);
                        assert(cview(oldo)[a] == cview(self.info@)[a]);
                    } else {
                        assert(cview(out@)[a] == (out@[a].0@, paths_rep(out@[a].1@)));
                        assert(out@[a].1@ == ev);
                        assert(out@[a].0@ == self.info@[a].0@);
                    }
                }
            }
            i += 1;
        }
        proof {
            assert(cview(out@) =~= cview(self.info@));
        }
        out
    }

    /// Append a stored record as read from disk, without touching others.
    #[verifier::loop_isolation(false)]
    pub fn push_entry(&mut self, line: String, path: Vec<String>, weight: u64)
        ensures
            final(self)@ == append_to(old(self)@, line@, path.deep_view(), weight as nat),
    {
        let ghost p = path.deep_view();
        let ghost ov = self@;
        match self.find_line(&line) {
            None => {
                proof {
                    lemma_append_to_absent(ov, line@, p, weight as nat);
                }
                let mut pe: Vec<(Vec<String>, u64)> = Vec::new();
                pe.push((path, weight));
                proof {
                    assert(paths_rep(pe@) =~= seq![(p, weight as nat)]);
                }
                self.info.push((line, pe));
                proof {
                    assert(self@ =~= ov.push((line@, seq![(p, weight as nat)])));
                }
            },
            Some(i) => {
                proof {
                    lemma_append_to_at(ov, line@, p, weight as nat, i as int);
                }
                let (ln, mut pvec) = self.info.remove(i);
                let ghost opv = paths_rep(pvec@);
                proof {
                    assert(opv == ov[i as int].1);
                }
                pvec.push((path, weight));
                proof {
                    assert(paths_rep(pvec@) =~= opv.push((p, weight as nat)));
                }
                self.info.insert(i, (ln, pvec));
                proof {
                    assert(self@ =~= ov.update(i as int, (ov[i as int].0, paths_rep(pvec@))));
                }
            },
        }
    }
}

} // verus!
