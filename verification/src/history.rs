use vstd::prelude::*;

use vstd::pervasive::VecAdditionalExecFns;

use crate::completions::{completion_score, CompView, Completions, PathComps};
use crate::search::{LineInfo, SearchBase};

verus! {

/// Distinct history lines in first-occurrence order.
pub open spec fn dedup_lines(ls: Seq<Seq<char>>) -> Seq<Seq<char>>
    decreases ls.len(),
{
    if ls.len() == 0 {
        Seq::empty()
    } else {
        let d = dedup_lines(ls.drop_last());
        if d.contains(ls.last()) {
            d
        } else {
            d.push(ls.last())
        }
    }
}

pub proof fn lemma_dedup_contains(ls: Seq<Seq<char>>, x: Seq<char>)
    ensures
        dedup_lines(ls).contains(x) <==> ls.contains(x),
    decreases ls.len(),
{
    if ls.len() > 0 {
        lemma_dedup_contains(ls.drop_last(), x);
        let d = dedup_lines(ls.drop_last());
        if ls.contains(x) {
            let w = choose|w: int| 0 <= w < ls.len() && ls[w] == x;
            if w < ls.len() - 1 {
                assert(ls.drop_last()[w] == x);
                assert(ls.drop_last().contains(x));
                if !d.contains(ls.last()) {
                    let u = choose|u: int| 0 <= u < d.len() && d[u] == x;
                    assert(d.push(ls.last())[u] == x);
                }
            } else {
                if !d.contains(ls.last()) {
                    assert(d.push(ls.last()).last() == x);
                }
            }
        }
        if dedup_lines(ls).contains(x) {
            if d.contains(ls.last()) {
                assert(ls.drop_last().contains(x));
                let w = choose|w: int| 0 <= w < ls.drop_last().len() && ls.drop_last()[w] == x;
                assert(ls[w] == x);
            } else {
                let u = choose|u: int| 0 <= u < d.push(ls.last()).len() && d.push(ls.last())[u]
                    == x;
                if u < d.len() {
                    assert(d[u] == x);
                    assert(ls.drop_last().contains(x));
                    let w = choose|w: int|
                        0 <= w < ls.drop_last().len() && ls.drop_last()[w] == x;
                    assert(ls[w] == x);
                } else {
                    assert(ls.last() == x);
                }
            }
        }
    }
}

pub proof fn lemma_dedup_distinct(ls: Seq<Seq<char>>)
    ensures
        distinct_lines(dedup_lines(ls)),
    decreases ls.len(),
{
    if ls.len() > 0 {
        lemma_dedup_distinct(ls.drop_last());
        let d = dedup_lines(ls.drop_last());
        if !d.contains(ls.last()) {
            assert forall|a: int, b: int|
                0 <= a < b < dedup_lines(ls).len() implies dedup_lines(ls)[a] != dedup_lines(
                ls,
            )[b] by {
                if b < d.len() {
                    assert(dedup_lines(ls)[a] == d[a] && dedup_lines(ls)[b] == d[b]);
                } else {
                    assert(dedup_lines(ls)[b] == ls.last() && dedup_lines(ls)[a] == d[a]);
                    if d[a] == ls.last() {
                        assert(d.contains(ls.last()));
                    }
                }
            }
        }
    }
}

/// The rank bias `l` accumulates over the first `k` history lines: each
/// occurrence contributes its position plus the completion affinity `sc`.
pub open spec fn factor_upto(ls: Seq<Seq<char>>, sc: nat, l: Seq<char>, k: int) -> nat
    decreases k,
{
    if k <= 0 {
        0
    } else {
        factor_upto(ls, sc, l, k - 1) + if ls[k - 1] == l {
            (k - 1) as nat + sc
        } else {
            0
        }
    }
}

proof fn lemma_factor_upto_zero(ls: Seq<Seq<char>>, sc: nat, l: Seq<char>, k: int)
    requires
        forall|w: int| 0 <= w < k ==> ls[w] != l,
    ensures
        factor_upto(ls, sc, l, k) == 0,
    decreases k,
{
    if k > 0 {
        lemma_factor_upto_zero(ls, sc, l, k - 1);
    }
}

/// The completion affinity of `l` in the working directory, when one is
/// known.
pub open spec fn score_of(cv: CompView, cwd: Option<PathComps>, l: Seq<char>) -> nat {
    match cwd {
        Some(p) => completion_score(cv, l, p),
        None => 0,
    }
}

pub open spec fn clamp_u64(x: nat) -> nat {
    if x <= u64::MAX as nat {
        x
    } else {
        u64::MAX as nat
    }
}

pub open spec fn clamp_i64(x: nat) -> int {
    if x <= i64::MAX as nat {
        x as int
    } else {
        i64::MAX as int
    }
}

/// The recent list with every occurrence of `l` gone.
pub open spec fn remove_line(r: Seq<Seq<char>>, l: Seq<char>) -> Seq<Seq<char>>
    decreases r.len(),
{
    if r.len() == 0 {
        Seq::empty()
    } else if r[0] == l {
        remove_line(r.drop_first(), l)
    } else {
        seq![r[0]] + remove_line(r.drop_first(), l)
    }
}

proof fn lemma_remove_line_absent(r: Seq<Seq<char>>, l: Seq<char>)
    requires
        forall|a: int| 0 <= a < r.len() ==> r[a] != l,
    ensures
        remove_line(r, l) == r,
    decreases r.len(),
{
    if r.len() > 0 {
        assert(forall|a: int|
            0 <= a < r.drop_first().len() ==> (#[trigger] r.drop_first()[a]) == r[a + 1]);
        lemma_remove_line_absent(r.drop_first(), l);
        assert(remove_line(r, l) =~= r);
    }
}

proof fn lemma_remove_line_at(r: Seq<Seq<char>>, l: Seq<char>, j: int)
    requires
        0 <= j < r.len(),
        r[j] == l,
        forall|a: int| 0 <= a < r.len() && a != j ==> r[a] != l,
    ensures
        remove_line(r, l) == r.remove(j),
    decreases j,
{
    assert(forall|a: int|
        0 <= a < r.drop_first().len() ==> (#[trigger] r.drop_first()[a]) == r[a + 1]);
    if j == 0 {
        lemma_remove_line_absent(r.drop_first(), l);
        assert(remove_line(r, l) =~= r.remove(0));
    } else {
        lemma_remove_line_at(r.drop_first(), l, j - 1);
        assert(remove_line(r, l) =~= r.remove(j));
    }
}

/// How the bounded recent list absorbs one more line: any earlier occurrence
/// goes, the line moves to the tail, and the list is trimmed at the head to
/// ten entries.
pub open spec fn recent_step(r: Seq<Seq<char>>, l: Seq<char>) -> Seq<Seq<char>> {
    let r1 = remove_line(r, l).push(l);
    if r1.len() > 10 {
        r1.skip(r1.len() - 10)
    } else {
        r1
    }
}

/// The recent list after the first `k` history lines.
pub open spec fn recent_upto(ls: Seq<Seq<char>>, k: int) -> Seq<Seq<char>>
    decreases k,
{
    if k <= 0 {
        Seq::empty()
    } else {
        recent_step(recent_upto(ls, k - 1), ls[k - 1])
    }
}

pub open spec fn distinct_lines(r: Seq<Seq<char>>) -> bool {
    forall|a: int, b: int| 0 <= a < b < r.len() ==> r[a] != r[b]
}

/// The first index holding `x`, if any.
#[verifier::loop_isolation(false)]
fn find_string(v: &Vec<String>, x: &String) -> (r: Option<usize>)
    ensures
        match r {
            Some(j) => j < v@.len() && v.deep_view()[j as int] == x@ && (forall|a: int|
                0 <= a < j ==> v.deep_view()[a] != x@),
            None => forall|a: int| 0 <= a < v@.len() ==> v.deep_view()[a] != x@,
        },
{
    let n = v.len();
    let mut j: usize = 0;
    while j < n
        invariant
            j <= n,
            forall|a: int| 0 <= a < j ==> v.deep_view()[a] != x@,
        decreases n - j,
    {
        if v[j] == *x {
            proof {
                assert(v.deep_view()[j as int] == x@);
            }
            return Some(j);
        }
        proof {
            assert(v.deep_view()[j as int] == v@[j as int]@);
        }
        j += 1;
    }
    None
}

/// Ingest the history: index each distinct line with its accumulated bias,
/// and keep the ten most recently seen distinct lines, most recent first.
#[verifier::loop_isolation(false)]
#[verifier::rlimit(50)]
pub fn build_history(lines: &Vec<String>, cwd: &Option<Vec<String>>, completions: &Completions)
    -> (r: (SearchBase, Vec<String>))
    ensures
        r.0.wf(),
        ({
            let ls = lines.deep_view();
            let cwdv = match cwd {
                Some(p) => Some(p.deep_view()),
                None => None::<PathComps>,
            };
            let d = dedup_lines(ls);
            &&& r.0@.len() == d.len()
            &&& forall|j: int|
                0 <= j < d.len() ==> (#[trigger] r.0@[j]).line == d[j] && r.0@[j].factor
                    == clamp_i64(
                    factor_upto(ls, score_of(completions@, cwdv, d[j]), d[j], ls.len() as int),
                )
            &&& r.1.deep_view() == recent_upto(ls, ls.len() as int).reverse()
        }),
{
    let ghost ls = lines.deep_view();
    let ghost cv = completions@;
    let ghost cwdv: Option<PathComps> = match cwd {
        Some(p) => Some(p.deep_view()),
        None => None,
    };

    let mut uniq: Vec<String> = Vec::new();
    let mut factors: Vec<u64> = Vec::new();
    let mut recent: Vec<String> = Vec::new();

    let n = lines.len();
    let mut i: usize = 0;
    while i < n
        invariant
            i <= n,
            n == ls.len(),
            uniq.deep_view() =~= dedup_lines(ls.take(i as int)),
            factors@.len() == uniq@.len(),
            forall|j: int|
                0 <= j < uniq@.len() ==> (#[trigger] factors@[j]) as nat == clamp_u64(
                    factor_upto(
                        ls,
                        score_of(cv, cwdv, uniq.deep_view()[j]),
                        uniq.deep_view()[j],
                        i as int,
                    ),
                ),
            recent.deep_view() =~= recent_upto(ls, i as int),
            distinct_lines(recent.deep_view()),
            recent@.len() <= 10,
        decreases n - i,
    {
        let line = &lines[i];
        let ghost lv = ls[i as int];
        proof {
            assert(line@ == lv);
            assert(ls.take(i + 1).drop_last() =~= ls.take(i as int));
            assert(ls.take(i + 1).last() == lv);
        }
        let sc: u64 = match cwd {
            Some(p) => completions.get_score(line, p),
            None => 0,
        };
        let ghost sce = score_of(cv, cwdv, lv);
        proof {
            assert(sc as nat == clamp_u64(sce));
        }

        // find or create the line's entry and add this occurrence's bias
        let ghost du = uniq.deep_view();
        let ul = uniq.len();
        let found = find_string(&uniq, line);
        if let Some(at) = found {
            let base = factors[at];
            let bumped = base.saturating_add(i as u64).saturating_add(sc);
            factors.set(at, bumped);
            proof {
                assert(dedup_lines(ls.take(i + 1)) == du) by {
                    assert(du.contains(lv)) by {
                        assert(du[at as int] == lv);
                    }
                }
                assert(uniq.deep_view() =~= du);
                assert forall|w: int| 0 <= w < uniq@.len() implies (#[trigger] factors@[w]) as nat
                    == clamp_u64(factor_upto(ls, score_of(cv, cwdv, du[w]), du[w], i + 1)) by {
                    if w == at {
                        assert(du[w] == lv);
                        assert(factor_upto(ls, sce, lv, i + 1) == factor_upto(ls, sce, lv, i as int)
                            + (i as nat + sce));
                    } else {
                        assert(du[w] != lv) by {
                            lemma_dedup_distinct(ls.take(i as int));
                            assert(distinct_lines(du));
                            if w < at {
                                assert(du[w] != du[at as int]);
                            } else {
                                assert(du[at as int] != du[w]);
                            }
                        }
                        assert(factor_upto(ls, score_of(cv, cwdv, du[w]), du[w], i + 1)
                            == factor_upto(ls, score_of(cv, cwdv, du[w]), du[w], i as int));
                    }
                }
            }
        } else {
            proof {
                assert(forall|a: int| 0 <= a < du.len() ==> du[a] != lv);
                if dedup_lines(ls.take(i as int)).contains(lv) {
                    let w = choose|w: int| 0 <= w < du.len() && du[w] == lv;
                }
                assert(!dedup_lines(ls.take(i as int)).contains(lv));
                lemma_dedup_contains(ls.take(i as int), lv);
                assert(forall|w: int| 0 <= w < i ==> ls.take(i as int)[w] == ls[w]);
                lemma_factor_upto_zero(ls, sce, lv, i as int);
            }
            uniq.push(line.clone());
            let f0 = (i as u64).saturating_add(sc);
            factors.push(f0);
            proof {
                assert(uniq.deep_view() =~= du.push(lv));
                assert(dedup_lines(ls.take(i + 1)) == du.push(lv));
                assert(factor_upto(ls, sce, lv, i + 1) == i as nat + sce);
                assert forall|w: int| 0 <= w < uniq@.len() implies (#[trigger] factors@[w]) as nat
                    == clamp_u64(
                    factor_upto(
                        ls,
                        score_of(cv, cwdv, uniq.deep_view()[w]),
                        uniq.deep_view()[w],
                        i + 1,
                    ),
                ) by {
                    let duu = uniq.deep_view();
                    if w < du.len() {
                        assert(duu[w] == du[w]);
                        assert(du[w] != lv);
                        assert(factor_upto(ls, score_of(cv, cwdv, du[w]), du[w], i + 1)
                            == factor_upto(ls, score_of(cv, cwdv, du[w]), du[w], i as int));
                    } else {
                        assert(duu[w] == lv);
                    }
                }
            }
        }

        // maintain the recent list
        let ghost dr = recent.deep_view();
        match find_string(&recent, line) {
            Some(rat) => {
                proof {
                    assert forall|a: int| 0 <= a < dr.len() && a != rat implies dr[a] != lv by {
                        if a < rat {
                        } else {
                            assert(dr[rat as int] == lv);
                        }
                    }
                    lemma_remove_line_at(dr, lv, rat as int);
                }
                recent.remove(rat);
                proof {
                    assert(recent.deep_view() =~= dr.remove(rat as int));
                }
            },
            None => {
                proof {
                    lemma_remove_line_absent(dr, lv);
                }
            },
        }
        let ghost dr2 = recent.deep_view();
        proof {
            assert(dr2 == remove_line(dr, lv));
        }
        recent.push(line.clone());
        proof {
            assert(recent.deep_view() =~= dr2.push(lv));
        }
        if recent.len() > 10 {
            let ghost dr3 = recent.deep_view();
            recent.remove(0);
            proof {
                assert(recent.deep_view() =~= dr3.skip(1));
                assert(dr3.len() == 11);
                assert(dr3.skip(1) =~= dr3.skip(dr3.len() - 10));
            }
        }
        proof {
            assert(recent.deep_view() =~= recent_step(dr, lv));
            assert(distinct_lines(recent.deep_view())) by {
                let r1 = remove_line(dr, lv).push(lv);
                lemma_remove_line_gone(dr, lv);
                lemma_remove_line_distinct(dr, lv);
                assert(distinct_lines(r1)) by {
                    let rml = remove_line(dr, lv);
                    assert forall|a: int, b: int| 0 <= a < b < r1.len() implies r1[a] != r1[b] by {
                        if b == r1.len() - 1 {
                            assert(r1[a] == rml[a]);
                            assert(rml[a] != lv);
                        } else {
                            assert(r1[a] == rml[a] && r1[b] == rml[b]);
                        }
                    }
                }
                if r1.len() > 10 {
                    assert(forall|a: int|
                        0 <= a < recent.deep_view().len() ==> recent.deep_view()[a] == r1[a + (
                        r1.len() - 10)]);
                }
            }
        }
        i += 1;
    }
    proof {
        assert(ls.take(n as int) =~= ls);
    }

    // build the index
    let ghost d = dedup_lines(ls);
    let mut infos: Vec<LineInfo> = Vec::new();
    let mut j: usize = 0;
    let ul = uniq.len();
    while j < ul
        invariant
            j <= ul,
            ul == uniq@.len(),
            uniq.deep_view() == d,
            factors@.len() == ul,
            infos@.len() == j,
            forall|w: int| 0 <= w < j ==> (#[trigger] infos@[w]).wf(),
            forall|w: int|
                0 <= w < j ==> (#[trigger] infos@[w])@.line == d[w] && infos@[w]@.factor
                    == clamp_i64(factor_upto(ls, score_of(cv, cwdv, d[w]), d[w], n as int)),
        decreases ul - j,
    {
        let f = factors[j];
        let fi: i64 = if f > i64::MAX as u64 {
            i64::MAX
        } else {
            f as i64
        };
        proof {
            assert(fi as int == clamp_i64(factor_upto(ls, score_of(cv, cwdv, d[j as int]), d[
                j as int], n as int)));
        }
        let li = LineInfo::new(uniq[j].clone(), fi);
        infos.push(li);
        j += 1;
    }
    let base = SearchBase::new(infos);

    // most recent first
    let mut out: Vec<String> = Vec::new();
    let rl = recent.len();
    let mut w: usize = 0;
    while w < rl
        invariant
            w <= rl,
            rl == recent@.len(),
            recent.deep_view() == recent_upto(ls, n as int),
            out.deep_view() =~= recent_upto(ls, n as int).reverse().take(w as int),
        decreases rl - w,
    {
        out.push(recent[rl - 1 - w].clone());
        proof {
            assert(out.deep_view() =~= recent_upto(ls, n as int).reverse().take(w + 1));
        }
        w += 1;
    }
    proof {
        assert(out.deep_view() =~= recent_upto(ls, n as int).reverse());
    }
    (base, out)
}

proof fn lemma_remove_line_gone(r: Seq<Seq<char>>, l: Seq<char>)
    ensures
        forall|a: int| 0 <= a < remove_line(r, l).len() ==> remove_line(r, l)[a] != l,
    decreases r.len(),
{
    if r.len() > 0 {
        lemma_remove_line_gone(r.drop_first(), l);
        let rm = remove_line(r.drop_first(), l);
        assert forall|a: int| 0 <= a < remove_line(r, l).len() implies remove_line(r, l)[a]
            != l by {
            if r[0] == l {
                assert(remove_line(r, l)[a] == rm[a]);
            } else if a == 0 {
                assert(remove_line(r, l)[0] == r[0]);
            } else {
                assert(remove_line(r, l)[a] == rm[a - 1]);
            }
        }
    }
}

proof fn lemma_remove_line_distinct(r: Seq<Seq<char>>, l: Seq<char>)
    requires
        distinct_lines(r),
    ensures
        distinct_lines(remove_line(r, l)),
        remove_line(r, l).len() <= r.len(),
    decreases r.len(),
{
    if r.len() > 0 {
        assert(forall|a: int|
            0 <= a < r.drop_first().len() ==> (#[trigger] r.drop_first()[a]) == r[a + 1]);
        lemma_remove_line_distinct(r.drop_first(), l);
        if r[0] != l {
            let rm = remove_line(r.drop_first(), l);
            lemma_remove_line_sub(r.drop_first(), l);
            assert forall|a: int, b: int|
                0 <= a < b < remove_line(r, l).len() implies remove_line(r, l)[a] != remove_line(
                r,
                l,
            )[b] by {
                if a == 0 {
                    assert(remove_line(r, l)[b] == rm[b - 1]);
                    assert(r.drop_first().contains(rm[b - 1]));
                    let u = choose|u: int|
                        0 <= u < r.drop_first().len() && r.drop_first()[u] == rm[b - 1];
                    assert(r[u + 1] == rm[b - 1]);
                } else {
                    assert(remove_line(r, l)[a] == rm[a - 1] && remove_line(r, l)[b] == rm[b
                        - 1]);
                }
            }
        }
    }
}

proof fn lemma_remove_line_sub(r: Seq<Seq<char>>, l: Seq<char>)
    ensures
        forall|a: int|
            0 <= a < remove_line(r, l).len() ==> r.contains(#[trigger] remove_line(r, l)[a]),
    decreases r.len(),
{
    if r.len() > 0 {
        lemma_remove_line_sub(r.drop_first(), l);
        let rm = remove_line(r.drop_first(), l);
        assert forall|a: int|
            0 <= a < remove_line(r, l).len() implies r.contains(
            #[trigger] remove_line(r, l)[a],
        ) by {
            if r[0] == l {
                assert(remove_line(r, l)[a] == rm[a]);
                assert(r.drop_first().contains(rm[a]));
                let u = choose|u: int| 0 <= u < r.drop_first().len() && r.drop_first()[u] == rm[a];
                assert(r[u + 1] == rm[a]);
            } else {
                if a == 0 {
                    assert(r[0] == remove_line(r, l)[0]);
                } else {
                    assert(remove_line(r, l)[a] == rm[a - 1]);
                    assert(r.drop_first().contains(rm[a - 1]));
                    let u = choose|u: int|
                        0 <= u < r.drop_first().len() && r.drop_first()[u] == rm[a - 1];
                    assert(r[u + 1] == rm[a - 1]);
                }
            }
        }
    }
}

} // verus!
