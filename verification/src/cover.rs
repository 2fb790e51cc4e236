use vstd::prelude::*;
use good_lp::{Solution, SolverModel};
use crate::implicant::{consistent_with, seq_contains, Implicant, Output};
use crate::implicant::merge_ok;
use crate::table::{
    constituents_within, covered_by, covers_all, distinct_values, implicant_of, implicants_of,
    implicants_wf, lemma_implicant_of_congruent, pairwise_unmergeable, Error, Table,
};

verus! {

broadcast use vstd::seq_lib::group_seq_properties;

/// The table's minterms, as a set of indices.
pub open spec fn minterm_set(t: Table) -> Set<usize> {
    Set::new(|m: usize| t.spec_minterm(m))
}

/// The union of the constituent sets of the implicants of `v`.
pub open spec fn covered_set(v: Seq<Implicant>) -> Set<usize> {
    Set::new(|m: usize| covered_by(m, v))
}

/// Soundness of covering: for any selection whose recorded constituents all
/// are minterms of the table and which covers every minterm, the union of its
/// constituent sets, intersected with the table's minterm set, is exactly the
/// minterm set. Both `minimize` strategies return such selections.
pub proof fn law_cover_soundness(t: Table, v: Seq<Implicant>)
    requires
        constituents_within(v, t),
        covers_all(t, v),
    ensures
        covered_set(v).intersect(minterm_set(t)) == minterm_set(t),
        covered_set(v) == minterm_set(t),
{
    assert forall|m: usize| #[trigger] covered_set(v).contains(m) implies minterm_set(t).contains(
        m,
    ) by {
        let k = choose|k: int| 0 <= k < v.len() && #[trigger] v[k].covers(m);
        assert(t.spec_minterm(m));
    }
    assert(covered_set(v) =~= minterm_set(t));
    assert(covered_set(v).intersect(minterm_set(t)) =~= minterm_set(t));
}

/// The implicant at position `k` of the selection covers a minterm that no
/// implicant before it covers: it contributes to the cover.
pub open spec fn covers_new_minterm(v: Seq<Implicant>, k: int, t: Table) -> bool {
    exists|c: usize|
        #[trigger] v[k].covers(c) && t.spec_minterm(c) && (forall|j: int|
            0 <= j < k ==> !v[j].covers(c))
}

/// Every implicant of the selection covers a minterm that nothing before it
/// covers: the selection is the trace of a greedy run.
pub open spec fn greedy_progress(v: Seq<Implicant>, t: Table) -> bool {
    forall|k: int| 0 <= k < v.len() ==> #[trigger] covers_new_minterm(v, k, t)
}

/// The implicant at position `k` of the selection covers some minterm.
pub open spec fn covers_some_minterm(v: Seq<Implicant>, k: int, t: Table) -> bool {
    exists|c: usize| #[trigger] v[k].covers(c) && t.spec_minterm(c)
}

/// Every implicant of the selection covers some minterm: none is useless.
pub open spec fn all_cover_minterms(v: Seq<Implicant>, t: Table) -> bool {
    forall|k: int| 0 <= k < v.len() ==> #[trigger] covers_some_minterm(v, k, t)
}

proof fn lemma_progress_all_cover(v: Seq<Implicant>, t: Table)
    requires
        greedy_progress(v, t),
    ensures
        all_cover_minterms(v, t),
{
    assert forall|k: int| 0 <= k < v.len() implies #[trigger] covers_some_minterm(v, k, t) by {
        assert(covers_new_minterm(v, k, t));
        let c = choose|c: usize|
            #[trigger] v[k].covers(c) && t.spec_minterm(c) && (forall|j: int|
                0 <= j < k ==> !v[j].covers(c));
        assert(v[k].covers(c) && t.spec_minterm(c));
    }
}

/// Under exact constituent bookkeeping, a greedy trace never selects the same
/// value vector twice: equal vectors subsume exactly the same minterms, so
/// the later one could cover nothing new.
proof fn lemma_progress_distinct(v: Seq<Implicant>, t: Table)
    requires
        greedy_progress(v, t),
        implicants_of(t, v),
    ensures
        distinct_values(v),
{
    assert forall|k1: int, k2: int|
        #![trigger v[k1].values@, v[k2].values@]
        0 <= k1 < k2 < v.len() implies v[k1].values@ != v[k2].values@ by {
        if v[k1].values@ == v[k2].values@ {
            assert(covers_new_minterm(v, k2, t));
            let c = choose|c: usize|
                #[trigger] v[k2].covers(c) && t.spec_minterm(c) && (forall|j: int|
                    0 <= j < k2 ==> !v[j].covers(c));
            assert(implicant_of(t, v[k2]));
            assert(consistent_with(v[k2].values@, c));
            assert(consistent_with(v[k1].values@, c));
            assert(implicant_of(t, v[k1]));
            assert(v[k1].covers(c));
            assert(!v[k1].covers(c));
        }
    }
}

/// A selection of which every member covers a minterm is empty when the table
/// has no minterms at all.
pub proof fn law_empty_universe(v: Seq<Implicant>, t: Table)
    requires
        all_cover_minterms(v, t),
        forall|m: usize| !t.spec_minterm(m),
    ensures
        v.len() == 0,
{
    if v.len() > 0 {
        assert(covers_some_minterm(v, 0, t));
        let c = choose|c: usize| #[trigger] v[0].covers(c) && t.spec_minterm(c);
    }
}

/// How many of the listed table indices are not yet covered.
spec fn uncov(cs: Seq<usize>, covered: Seq<bool>) -> nat
    decreases cs.len(),
{
    if cs.len() == 0 {
        0
    } else {
        uncov(cs.drop_last(), covered) + if cs.last() < covered.len() && !covered[cs.last() as int] {
            1nat
        } else {
            0nat
        }
    }
}

proof fn lemma_uncov_pos(cs: Seq<usize>, covered: Seq<bool>, c: usize)
    requires
        cs.contains(c),
        c < covered.len(),
        !covered[c as int],
    ensures
        uncov(cs, covered) >= 1,
    decreases cs.len(),
{
    let i = choose|i: int| 0 <= i < cs.len() && cs[i] == c;
    if i == cs.len() - 1 {
        assert(cs.last() == c);
    } else {
        assert(cs.drop_last()[i] == c);
        assert(cs.drop_last().contains(c));
        lemma_uncov_pos(cs.drop_last(), covered, c);
    }
}

proof fn lemma_uncov_exists(cs: Seq<usize>, covered: Seq<bool>)
    requires
        uncov(cs, covered) >= 1,
    ensures
        exists|c: usize| cs.contains(c) && c < covered.len() && !covered[c as int],
    decreases cs.len(),
{
    if cs.last() < covered.len() && !covered[cs.last() as int] {
        assert(cs[cs.len() - 1] == cs.last());
        assert(cs.contains(cs.last()));
    } else {
        lemma_uncov_exists(cs.drop_last(), covered);
        let c = choose|c: usize|
            cs.drop_last().contains(c) && c < covered.len() && !covered[c as int];
        let i = choose|i: int| 0 <= i < cs.drop_last().len() && cs.drop_last()[i] == c;
        assert(cs[i] == c);
        assert(cs.contains(c));
    }
}

/// How many minterms among table indices below `hi` are not yet covered.
spec fn remaining(outputs: Seq<Output>, covered: Seq<bool>, hi: int) -> nat
    decreases hi,
{
    if hi <= 0 {
        0
    } else {
        remaining(outputs, covered, hi - 1) + if outputs[hi - 1] == Output::One && !covered[hi
            - 1] {
            1nat
        } else {
            0nat
        }
    }
}

proof fn lemma_remaining_mono(outputs: Seq<Output>, c1: Seq<bool>, c2: Seq<bool>, hi: int)
    requires
        forall|i: int| 0 <= i < hi ==> ((#[trigger] c1[i]) ==> c2[i]),
    ensures
        remaining(outputs, c2, hi) <= remaining(outputs, c1, hi),
    decreases hi,
{
    if hi > 0 {
        lemma_remaining_mono(outputs, c1, c2, hi - 1);
    }
}

proof fn lemma_remaining_strict(
    outputs: Seq<Output>,
    c1: Seq<bool>,
    c2: Seq<bool>,
    hi: int,
    m: int,
)
    requires
        forall|i: int| 0 <= i < hi ==> ((#[trigger] c1[i]) ==> c2[i]),
        0 <= m < hi,
        outputs[m] == Output::One,
        !c1[m],
        c2[m],
    ensures
        remaining(outputs, c2, hi) < remaining(outputs, c1, hi),
    decreases hi,
{
    if m == hi - 1 {
        lemma_remaining_mono(outputs, c1, c2, hi - 1);
    } else {
        lemma_remaining_strict(outputs, c1, c2, hi - 1, m);
    }
}

/// How many of the implicant's constituents are not yet covered.
fn count_uncovered(p: &Implicant, covered: &Vec<bool>) -> (r: usize)
    ensures
        r == uncov(p.constituents@, covered@),
{
    let cs = &p.constituents;
    let mut cnt: usize = 0;
    let mut i: usize = 0;
    while i < cs.len()
        invariant
            i <= cs@.len(),
            cnt <= i,
            cnt == uncov(cs@.take(i as int), covered@),
        decreases cs@.len() - i,
    {
        let c = cs[i];
        proof {
            assert(cs@.take(i as int + 1) =~= cs@.take(i as int).push(c));
            assert(cs@.take(i as int + 1).drop_last() =~= cs@.take(i as int));
        }
        if c < covered.len() && !covered[c] {
            cnt = cnt + 1;
        }
        i = i + 1;
    }
    proof {
        assert(cs@.take(cs@.len() as int) =~= cs@);
    }
    cnt
}

/// Does any implicant of the selection cover table index `u`?
fn any_covers(sel: &Vec<Implicant>, u: usize) -> (r: bool)
    ensures
        r == covered_by(u, sel@),
{
    let mut k: usize = 0;
    while k < sel.len()
        invariant
            k <= sel@.len(),
            forall|j: int| 0 <= j < k ==> !(#[trigger] sel@[j].covers(u)),
        decreases sel@.len() - k,
    {
        if seq_contains(&sel[k].constituents, u) {
            proof {
                assert(sel@[k as int].covers(u));
            }
            return true;
        }
        k = k + 1;
    }
    false
}

/// The index of a prime implicant covering the most not-yet-covered minterms.
fn best_prime(primes: &Vec<Implicant>, covered: &Vec<bool>) -> (r: usize)
    requires
        primes@.len() > 0,
    ensures
        r < primes@.len(),
        forall|q: int|
            0 <= q < primes@.len() ==> uncov((#[trigger] primes@[q]).constituents@, covered@)
                <= uncov(primes@[r as int].constituents@, covered@),
{
    let mut best: usize = 0;
    let mut best_cnt: usize = count_uncovered(&primes[0], covered);
    let mut j: usize = 1;
    while j < primes.len()
        invariant
            1 <= j <= primes@.len(),
            best < j,
            best_cnt == uncov(primes@[best as int].constituents@, covered@),
            forall|q: int|
                0 <= q < j ==> uncov((#[trigger] primes@[q]).constituents@, covered@) <= best_cnt,
        decreases primes@.len() - j,
    {
        let cnt = count_uncovered(&primes[j], covered);
        if cnt > best_cnt {
            best_cnt = cnt;
            best = j;
        }
        j = j + 1;
    }
    best
}

/// Marks every constituent of `p` as covered.
fn mark_covered(covered: &mut Vec<bool>, p: &Implicant)
    requires
        forall|c: usize| #[trigger] p.covers(c) ==> c < old(covered)@.len(),
    ensures
        final(covered)@.len() == old(covered)@.len(),
        forall|i: int| 0 <= i < old(covered)@.len() && old(covered)@[i] ==> final(covered)@[i],
        forall|i: int|
            0 <= i < old(covered)@.len() && #[trigger] final(covered)@[i] ==> old(covered)@[i]
                || p.covers(i as usize),
        forall|c: usize| #[trigger] p.covers(c) ==> final(covered)@[c as int],
{
    let mut t: usize = 0;
    while t < p.constituents.len()
        invariant
            t <= p.constituents@.len(),
            covered@.len() == old(covered)@.len(),
            forall|c: usize| #[trigger] p.covers(c) ==> c < old(covered)@.len(),
            forall|i: int| 0 <= i < old(covered)@.len() && old(covered)@[i] ==> covered@[i],
            forall|i: int|
                0 <= i < old(covered)@.len() && #[trigger] covered@[i] ==> old(covered)@[i]
                    || p.covers(i as usize),
            forall|q: int| 0 <= q < t ==> covered@[p.constituents@[q] as int],
        decreases p.constituents@.len() - t,
    {
        let c = p.constituents[t];
        proof {
            assert(p.constituents@.contains(c));
            assert(p.covers(c));
        }
        let ghost cov_pre = covered@;
        covered.set(c, true);
        proof {
            assert forall|q: int| 0 <= q < t + 1 implies covered@[p.constituents@[q] as int] by {
                assert(p.constituents@.contains(p.constituents@[q]));
                assert(p.covers(p.constituents@[q]));
                if q < t {
                    assert(cov_pre[p.constituents@[q] as int]);
                }
            }
        }
        t = t + 1;
    }
    proof {
        assert forall|c: usize| #[trigger] p.covers(c) implies covered@[c as int] by {
            let q = choose|q: int| 0 <= q < p.constituents@.len() && p.constituents@[q] == c;
            assert(covered@[p.constituents@[q] as int]);
        }
    }
}

/// Row `row` of the set-cover program names exactly the candidate sets that
/// contain the universe element `u`: the program's constraint for `u` is
/// faithful to the coverage relation.
pub open spec fn cover_row(row: Seq<usize>, primes: Seq<Implicant>, u: usize) -> bool {
    forall|jj: usize|
        (#[trigger] row.contains(jj)) <==> (jj < primes.len() && primes[jj as int].covers(u))
}

/// Relies on good_lp (`ProblemVariables`, `SolverModel`, `Solution`, backed by
/// the microlp solver) to solve a 0/1 set-cover integer program: one binary
/// variable per candidate set, minimizing their sum, with one constraint per
/// row of `rows` requiring the sum of the named variables to be at least 1.
/// Returns the selection mask, or nothing if the solver reports an error.
/// Nothing beyond the mask's length is assumed of the outcome; the caller
/// checks the returned selection itself.
#[verifier::external_body]
fn solve_cover_ilp(n_sets: usize, rows: &Vec<Vec<usize>>) -> (r: Option<Vec<bool>>)
    requires
        forall|i: int, j: int|
            0 <= i < rows@.len() && 0 <= j < rows@[i]@.len() ==> rows@[i]@[j] < n_sets,
    ensures
        r matches Some(v) ==> v@.len() == n_sets,
{
    let mut problem = good_lp::ProblemVariables::new();
    let xs = problem.add_vector(good_lp::variable().binary(), n_sets);
    let objective: good_lp::Expression = xs.iter().sum();
    let mut model = problem.minimise(objective).using(good_lp::microlp);
    for row in rows {
        let lhs: good_lp::Expression = row.iter().map(|&j| xs[j]).sum();
        model = model.with(lhs.geq(1));
    }
    match model.solve() {
        Ok(sol) => Some(xs.iter().map(|v| sol.value(*v).round() as i64 >= 1).collect()),
        Err(_) => None,
    }
}

/// Which of the two interchangeable cover-selection strategies to run.
#[derive(Clone, Copy, Debug, PartialEq, Eq, Structural)]
pub enum Strategy {
    Exact,
    Greedy,
}

impl Table {
    /// Minimization with the exact strategy: selects, among the prime
    /// implicants, a minimum-cardinality subset covering every minterm, by a
    /// 0/1 integer program handed to an outside solver. The returned
    /// selection is checked to cover every minterm; a solver error or a
    /// non-covering solver answer is reported as `SolverFailure`. The
    /// selection is a duplicate-free set of mutually unmergeable true
    /// implicants. An implicant covering no minterm is never selected, and a
    /// table with no minterms succeeds with an empty selection before the
    /// solver is ever consulted.
    #[verifier::rlimit(60)]
    #[verifier::spinoff_prover]
    pub fn minimize(&self) -> (r: Result<Vec<Implicant>, Error>)
        requires
            self.wf(),
        ensures
            match r {
                Result::Ok(sel) => {
                    &&& implicants_wf(sel@, self.n)
                    &&& constituents_within(sel@, *self)
                    &&& covers_all(*self, sel@)
                    &&& all_cover_minterms(sel@, *self)
                    &&& implicants_of(*self, sel@)
                    &&& pairwise_unmergeable(sel@)
                    &&& distinct_values(sel@)
                },
                Result::Err(e) => e == Error::SolverFailure,
            },
            (forall|m: usize| !self.spec_minterm(m)) ==> r is Ok,
            (forall|m: usize| !self.spec_minterm(m)) ==> (r matches Result::Ok(sel)
                ==> sel@.len() == 0),
    {
        let primes = self.prime_implicants();
        let universe = self.minterms();
        if universe.len() == 0 {
            let sel: Vec<Implicant> = Vec::new();
            proof {
                assert forall|m: usize| #[trigger] self.spec_minterm(m) implies covered_by(
                    m,
                    sel@,
                ) by {
                    assert(universe@.contains(m));
                }
            }
            return Ok(sel);
        }
        let mut rows: Vec<Vec<usize>> = Vec::new();
        let mut ui: usize = 0;
        while ui < universe.len()
            invariant
                ui <= universe@.len(),
                rows@.len() == ui,
                forall|i: int, j: int|
                    0 <= i < rows@.len() && 0 <= j < rows@[i]@.len() ==> rows@[i]@[j]
                        < primes@.len(),
                forall|i: int|
                    0 <= i < rows@.len() ==> #[trigger] cover_row(
                        rows@[i]@,
                        primes@,
                        universe@[i],
                    ),
            decreases universe@.len() - ui,
        {
            let u = universe[ui];
            let mut row: Vec<usize> = Vec::new();
            let mut j: usize = 0;
            while j < primes.len()
                invariant
                    j <= primes@.len(),
                    forall|q: int| 0 <= q < row@.len() ==> row@[q] < primes@.len(),
                    forall|jj: usize|
                        (#[trigger] row@.contains(jj)) <==> (jj < j && primes@[jj as int].covers(
                            u,
                        )),
                decreases primes@.len() - j,
            {
                if seq_contains(&primes[j].constituents, u) {
                    row.push(j);
                }
                j = j + 1;
            }
            proof {
                assert(cover_row(row@, primes@, u));
            }
            rows.push(row);
            ui = ui + 1;
        }
        proof {
            // the universe is not empty here, so failure is permitted
            assert(universe@.contains(universe@[0]));
            assert(self.spec_minterm(universe@[0]));
        }
        let mask = match solve_cover_ilp(primes.len(), &rows) {
            Some(mask) => mask,
            None => {
                return Err(Error::SolverFailure);
            },
        };
        let ghost mut sel_src: Seq<int> = Seq::empty();
        let mut sel: Vec<Implicant> = Vec::new();
        let mut j: usize = 0;
        while j < primes.len()
            invariant
                j <= primes@.len(),
                mask@.len() == primes@.len(),
                implicants_wf(primes@, self.n),
                constituents_within(primes@, *self),
                implicants_of(*self, primes@),
                pairwise_unmergeable(primes@),
                distinct_values(primes@),
                implicants_wf(sel@, self.n),
                constituents_within(sel@, *self),
                all_cover_minterms(sel@, *self),
                implicants_of(*self, sel@),
                sel_src.len() == sel@.len(),
                forall|k: int|
                    0 <= k < sel@.len() ==> 0 <= #[trigger] sel_src[k] < j && sel@[k].values@
                        == primes@[sel_src[k]].values@,
                pairwise_unmergeable(sel@),
                distinct_values(sel@),
            decreases primes@.len() - j,
        {
            if mask[j] && primes[j].constituent_count() > 0 {
                let p = primes[j].duplicate();
                let ghost sel_pre = sel@;
                sel.push(p);
                proof {
                    assert(primes@[j as int].wf(self.n));
                    assert(p.wf(self.n));
                    assert(implicant_of(*self, primes@[j as int]));
                    lemma_implicant_of_congruent(*self, primes@[j as int], p);
                    assert forall|k: int| 0 <= k < sel@.len() implies #[trigger] implicant_of(
                        *self,
                        sel@[k],
                    ) by {
                        if k < sel_pre.len() {
                            assert(implicant_of(*self, sel_pre[k]));
                        }
                    }
                    assert forall|k: int| 0 <= k < sel@.len() implies #[trigger] sel@[k].wf(
                        self.n,
                    ) by {
                        if k < sel_pre.len() {
                            assert(sel_pre[k].wf(self.n));
                        }
                    }
                    let c0 = p.constituents@[0];
                    assert(p.constituents@.contains(c0));
                    assert(primes@[j as int].covers(c0));
                    assert(sel@[sel_pre.len() as int].covers(c0));
                    assert forall|k: int, c: usize|
                        0 <= k < sel@.len() && #[trigger] sel@[k].covers(c) implies
                        self.spec_minterm(c) by {
                        if k == sel_pre.len() {
                            assert(primes@[j as int].covers(c));
                        }
                    }
                    assert(self.spec_minterm(c0));
                    // the new selection is one of the primes: unmergeable with
                    // and distinct from everything selected before it
                    sel_src = sel_src.push(j as int);
                    assert(sel@[sel_pre.len() as int].values@ == primes@[j as int].values@);
                    assert forall|k1: int, k2: int|
                        0 <= k1 < sel@.len() && 0 <= k2 < sel@.len() && k1 != k2 implies
                        !#[trigger] merge_ok(sel@[k1].values@, sel@[k2].values@) by {
                        if k1 < sel_pre.len() && k2 < sel_pre.len() {
                            assert(!merge_ok(sel_pre[k1].values@, sel_pre[k2].values@));
                        } else {
                            let o = if k1 < sel_pre.len() {
                                k1
                            } else {
                                k2
                            };
                            let so = sel_src[o];
                            assert(0 <= so < j);
                            assert(sel@[o].values@ == primes@[so].values@);
                            assert(!merge_ok(primes@[so].values@, primes@[j as int].values@));
                            assert(!merge_ok(primes@[j as int].values@, primes@[so].values@));
                        }
                    }
                    assert forall|k1: int, k2: int|
                        #![trigger sel@[k1].values@, sel@[k2].values@]
                        0 <= k1 < k2 < sel@.len() implies sel@[k1].values@ != sel@[k2].values@ by {
                        if k2 < sel_pre.len() {
                            assert(sel_pre[k1].values@ != sel_pre[k2].values@);
                        } else {
                            let so = sel_src[k1];
                            assert(0 <= so < j);
                            assert(sel@[k1].values@ == primes@[so].values@);
                            assert(primes@[so].values@ != primes@[j as int].values@);
                        }
                    }
                    assert forall|k: int|
                        0 <= k < sel@.len() implies #[trigger] covers_some_minterm(
                        sel@,
                        k,
                        *self,
                    ) by {
                        if k < sel_pre.len() {
                            assert(covers_some_minterm(sel_pre, k, *self));
                            let c = choose|c: usize|
                                #[trigger] sel_pre[k].covers(c) && self.spec_minterm(c);
                            assert(sel@[k].covers(c) && self.spec_minterm(c));
                        } else {
                            assert(sel@[k].covers(c0) && self.spec_minterm(c0));
                        }
                    }
                }
            }
            j = j + 1;
        }
        let mut ui: usize = 0;
        while ui < universe.len()
            invariant
                ui <= universe@.len(),
                universe@.len() > 0,
                self.spec_minterm(universe@[0]),
                forall|i: int| 0 <= i < ui ==> covered_by(#[trigger] universe@[i], sel@),
            decreases universe@.len() - ui,
        {
            if !any_covers(&sel, universe[ui]) {
                return Err(Error::SolverFailure);
            }
            ui = ui + 1;
        }
        proof {
            assert forall|m: usize| #[trigger] self.spec_minterm(m) implies covered_by(
                m,
                sel@,
            ) by {
                assert(universe@.contains(m));
                let i = choose|i: int| 0 <= i < universe@.len() && universe@[i] == m;
                assert(covered_by(universe@[i], sel@));
            }
            assert(universe@.contains(universe@[0]));
            assert(self.spec_minterm(universe@[0]));
        }
        Ok(sel)
    }

    /// Minimization with the greedy maximum-coverage heuristic: repeatedly
    /// selects the prime implicant covering the most not-yet-covered
    /// minterms, until every minterm is covered. Every selected implicant
    /// covers at least one minterm that none of the earlier selections
    /// covers; in particular an implicant covering no minterm is never
    /// selected, no implicant is selected twice, and a table with no minterms
    /// yields an empty selection.
    #[verifier::rlimit(100)]
    #[verifier::spinoff_prover]
    pub fn minimize_greedy(&self) -> (r: Vec<Implicant>)
        requires
            self.wf(),
        ensures
            implicants_wf(r@, self.n),
            constituents_within(r@, *self),
            covers_all(*self, r@),
            greedy_progress(r@, *self),
            implicants_of(*self, r@),
            pairwise_unmergeable(r@),
            distinct_values(r@),
            (forall|m: usize| !self.spec_minterm(m)) ==> r@.len() == 0,
    {
        let primes = self.prime_implicants();
        let len = self.outputs.len();
        let mut covered: Vec<bool> = Vec::new();
        let mut i0: usize = 0;
        while i0 < len
            invariant
                i0 <= len,
                covered@.len() == i0,
                forall|i: int| 0 <= i < i0 ==> covered@[i] == false,
            decreases len - i0,
        {
            covered.push(false);
            i0 = i0 + 1;
        }
        let ghost mut sel_src: Seq<int> = Seq::empty();
        let mut sel: Vec<Implicant> = Vec::new();
        loop
            invariant
                len == self.outputs@.len(),
                covered@.len() == len,
                implicants_wf(primes@, self.n),
                constituents_within(primes@, *self),
                covers_all(*self, primes@),
                implicants_of(*self, primes@),
                pairwise_unmergeable(primes@),
                distinct_values(primes@),
                implicants_wf(sel@, self.n),
                constituents_within(sel@, *self),
                implicants_of(*self, sel@),
                sel_src.len() == sel@.len(),
                forall|k: int|
                    0 <= k < sel@.len() ==> 0 <= #[trigger] sel_src[k] < primes@.len()
                        && sel@[k].values@ == primes@[sel_src[k]].values@,
                pairwise_unmergeable(sel@),
                distinct_values(sel@),
                forall|m: usize| m < len && #[trigger] covered@[m as int] ==> covered_by(m, sel@),
                forall|k: int, c: usize|
                    0 <= k < sel@.len() && #[trigger] sel@[k].covers(c) ==> c < len
                        && covered@[c as int],
                greedy_progress(sel@, *self),
            ensures
                covers_all(*self, sel@),
                implicants_wf(sel@, self.n),
                constituents_within(sel@, *self),
                greedy_progress(sel@, *self),
                implicants_of(*self, sel@),
                pairwise_unmergeable(sel@),
                distinct_values(sel@),
            decreases remaining(self.outputs@, covered@, len as int),
        {
            let m0 = match self.find_uncovered(&covered) {
                None => {
                    proof {
                        assert forall|m: usize| #[trigger] self.spec_minterm(m) implies covered_by(
                            m,
                            sel@,
                        ) by {
                            assert(covered@[m as int]);
                        }
                    }
                    break ;
                },
                Some(m0) => m0,
            };
            proof {
                assert(covered_by(m0, primes@));
            }
            let best = best_prime(&primes, &covered);
            proof {
                let k0 = choose|k: int| 0 <= k < primes@.len() && #[trigger] primes@[k].covers(m0);
                assert(primes@[k0].constituents@.contains(m0));
                lemma_uncov_pos(primes@[k0].constituents@, covered@, m0);
                assert(uncov(primes@[best as int].constituents@, covered@) >= 1);
                lemma_uncov_exists(primes@[best as int].constituents@, covered@);
            }
            let ghost covered_pre = covered@;
            let ghost c_w = choose|c: usize|
                primes@[best as int].constituents@.contains(c) && c < covered_pre.len()
                    && !covered_pre[c as int];
            let ghost sel_pre = sel@;
            let p = primes[best].duplicate();
            sel.push(p);
            proof {
                assert(primes@[best as int].wf(self.n));
                assert(p.wf(self.n));
                assert(implicant_of(*self, primes@[best as int]));
                lemma_implicant_of_congruent(*self, primes@[best as int], p);
                assert forall|k: int| 0 <= k < sel@.len() implies #[trigger] implicant_of(
                    *self,
                    sel@[k],
                ) by {
                    if k < sel_pre.len() {
                        assert(implicant_of(*self, sel_pre[k]));
                    }
                }
                assert forall|k: int| 0 <= k < sel@.len() implies #[trigger] sel@[k].wf(
                    self.n,
                ) by {
                    if k < sel_pre.len() {
                        assert(sel_pre[k].wf(self.n));
                    }
                }
                assert forall|k: int, c: usize|
                    0 <= k < sel@.len() && #[trigger] sel@[k].covers(c) implies self.spec_minterm(
                    c,
                ) by {
                    if k == sel_pre.len() {
                        assert(primes@[best as int].covers(c));
                    }
                }
                assert forall|c: usize| #[trigger] primes@[best as int].covers(c) implies c
                    < covered@.len() by {
                    assert(self.spec_minterm(c));
                }
            }
            mark_covered(&mut covered, &primes[best]);
            proof {
                // the covered marks, and with them the coverage facts, carry over
                assert forall|m: usize|
                    m < len && #[trigger] covered@[m as int] implies covered_by(m, sel@) by {
                    if covered_pre[m as int] {
                        let k = choose|k: int|
                            0 <= k < sel_pre.len() && #[trigger] sel_pre[k].covers(m);
                        assert(sel@[k].covers(m));
                    } else {
                        assert(primes@[best as int].covers(m));
                        assert(sel@[sel_pre.len() as int].covers(m));
                    }
                }
                assert forall|k: int, c: usize|
                    0 <= k < sel@.len() && #[trigger] sel@[k].covers(c) implies c < len
                    && covered@[c as int] by {
                    if k < sel_pre.len() {
                        assert(sel_pre[k].covers(c));
                        assert(covered_pre[c as int]);
                    } else {
                        assert(primes@[best as int].covers(c));
                    }
                }
                // the new selection covers a minterm nothing earlier covered
                assert(primes@[best as int].covers(c_w));
                assert(self.spec_minterm(c_w));
                assert(sel@[sel_pre.len() as int].covers(c_w));
                assert forall|k: int| 0 <= k < sel@.len() implies #[trigger] covers_new_minterm(
                    sel@,
                    k,
                    *self,
                ) by {
                    if k < sel_pre.len() {
                        assert(covers_new_minterm(sel_pre, k, *self));
                        let c = choose|c: usize|
                            #[trigger] sel_pre[k].covers(c) && self.spec_minterm(c) && (forall|
                                j0: int,
                            |
                                0 <= j0 < k ==> !sel_pre[j0].covers(c));
                        assert(sel@[k].covers(c) && self.spec_minterm(c));
                        assert forall|j0: int| 0 <= j0 < k implies !sel@[j0].covers(c) by {
                            assert(!sel_pre[j0].covers(c));
                        }
                    } else {
                        assert(sel@[k].covers(c_w) && self.spec_minterm(c_w));
                        assert forall|j0: int| 0 <= j0 < k implies !sel@[j0].covers(c_w) by {
                            if sel_pre[j0].covers(c_w) {
                                assert(covered_pre[c_w as int]);
                            }
                        }
                    }
                }
                // the selection stays a duplicate-free, mutually unmergeable
                // subset of the primes
                sel_src = sel_src.push(best as int);
                assert(sel@[sel_pre.len() as int].values@ == primes@[best as int].values@);
                lemma_progress_distinct(sel@, *self);
                assert forall|k1: int, k2: int|
                    0 <= k1 < sel@.len() && 0 <= k2 < sel@.len() && k1 != k2 implies
                    !#[trigger] merge_ok(sel@[k1].values@, sel@[k2].values@) by {
                    let s1 = sel_src[k1];
                    let s2 = sel_src[k2];
                    assert(sel@[k1].values@ == primes@[s1].values@);
                    assert(sel@[k2].values@ == primes@[s2].values@);
                    if s1 == s2 {
                        if k1 < k2 {
                            assert(sel@[k1].values@ != sel@[k2].values@);
                        } else {
                            assert(sel@[k2].values@ != sel@[k1].values@);
                        }
                    } else {
                        assert(!merge_ok(primes@[s1].values@, primes@[s2].values@));
                    }
                }
                // one more minterm is covered: the loop makes progress
                assert(covered@[c_w as int]);
                lemma_remaining_strict(
                    self.outputs@,
                    covered_pre,
                    covered@,
                    len as int,
                    c_w as int,
                );
            }
        }
        proof {
            if (forall|m: usize| !self.spec_minterm(m)) {
                lemma_progress_all_cover(sel@, *self);
                law_empty_universe(sel@, *self);
            }
        }
        sel
    }

    /// The first minterm not yet covered, if any.
    fn find_uncovered(&self, covered: &Vec<bool>) -> (r: Option<usize>)
        requires
            covered@.len() == self.outputs@.len(),
        ensures
            match r {
                Option::Some(m) => self.spec_minterm(m) && !covered@[m as int],
                Option::None => forall|m: usize|
                    #[trigger] self.spec_minterm(m) ==> covered@[m as int],
            },
    {
        let len = self.outputs.len();
        let mut m0: usize = 0;
        while m0 < len
            invariant
                m0 <= len,
                len == self.outputs@.len(),
                covered@.len() == len,
                forall|m: int| 0 <= m < m0 ==> !(self.outputs@[m] == Output::One && !covered@[m]),
            decreases len - m0,
        {
            if self.outputs[m0] == Output::One && !covered[m0] {
                return Some(m0);
            }
            m0 = m0 + 1;
        }
        None
    }

    /// Minimization behind one interface with the strategy named explicitly:
    /// `Exact` runs the integer-program selection (and alone can fail, on a
    /// solver error), `Greedy` runs the maximum-coverage heuristic and always
    /// succeeds.
    pub fn minimize_with(&self, strategy: Strategy) -> (r: Result<Vec<Implicant>, Error>)
        requires
            self.wf(),
        ensures
            match r {
                Result::Ok(sel) => {
                    &&& implicants_wf(sel@, self.n)
                    &&& constituents_within(sel@, *self)
                    &&& covers_all(*self, sel@)
                    &&& all_cover_minterms(sel@, *self)
                    &&& implicants_of(*self, sel@)
                    &&& pairwise_unmergeable(sel@)
                    &&& distinct_values(sel@)
                },
                Result::Err(e) => strategy == Strategy::Exact && e == Error::SolverFailure,
            },
            strategy == Strategy::Greedy ==> r is Ok,
            (forall|m: usize| !self.spec_minterm(m)) ==> r is Ok,
            (forall|m: usize| !self.spec_minterm(m)) ==> (r matches Result::Ok(sel)
                ==> sel@.len() == 0),
    {
        match strategy {
            Strategy::Exact => self.minimize(),
            Strategy::Greedy => {
                let sel = self.minimize_greedy();
                proof {
                    lemma_progress_all_cover(sel@, *self);
                }
                Ok(sel)
            },
        }
    }

    /// The explicit fallback policy: run the exact strategy, and on a solver
    /// failure fall back to the greedy strategy, so that a covering selection
    /// is always returned.
    pub fn minimize_or_greedy(&self) -> (r: Vec<Implicant>)
        requires
            self.wf(),
        ensures
            implicants_wf(r@, self.n),
            constituents_within(r@, *self),
            covers_all(*self, r@),
            all_cover_minterms(r@, *self),
            implicants_of(*self, r@),
            pairwise_unmergeable(r@),
            distinct_values(r@),
            (forall|m: usize| !self.spec_minterm(m)) ==> r@.len() == 0,
    {
        match self.minimize() {
            Ok(sel) => {
                proof {
                    if (forall|m: usize| !self.spec_minterm(m)) {
                        law_empty_universe(sel@, *self);
                    }
                }
                sel
            },
            Err(_) => {
                let sel = self.minimize_greedy();
                proof {
                    lemma_progress_all_cover(sel@, *self);
                    if (forall|m: usize| !self.spec_minterm(m)) {
                        law_empty_universe(sel@, *self);
                    }
                }
                sel
            },
        }
    }
}

} // verus!
