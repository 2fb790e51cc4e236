use vstd::prelude::*;
use vstd::arithmetic::power2::pow2;
use crate::implicant::{
    bit_set, consistent_with, count_dc, lemma_bits_equal, lemma_count_dc_le_len,
    lemma_count_dc_update, lemma_consistent_split, lemma_merge_consistent, lemma_merge_ok_same_dc,
    lemma_merge_ok_sym, merge_ok, merge_ok_at, same_values, union_indices, copy_values, Implicant,
    Output,
};

verus! {

broadcast use vstd::seq_lib::group_seq_properties;

/// The failures the library reports: a table whose output sequence is not
/// 2^n long, a query outside the table's index range, and an exact cover
/// solver that could not produce a covering selection.
#[derive(Clone, Copy, Debug, PartialEq, Eq, Structural)]
pub enum Error {
    MalformedTable,
    OutOfBounds,
    SolverFailure,
}

/// A truth table over `n` Boolean inputs: `outputs[i]` is the required output
/// for the input assignment whose bit `k` is the value of variable `k`.
pub struct Table {
    pub n: usize,
    pub outputs: Vec<Output>,
}

/// Every implicant of the sequence is well-formed for a table over `n`
/// variables.
pub open spec fn implicants_wf(v: Seq<Implicant>, n: usize) -> bool {
    forall|k: int| 0 <= k < v.len() ==> #[trigger] v[k].wf(n)
}

/// Every recorded constituent of every implicant of the sequence is one of
/// the table's minterms.
pub open spec fn constituents_within(v: Seq<Implicant>, t: Table) -> bool {
    forall|k: int, c: usize| 0 <= k < v.len() && #[trigger] v[k].covers(c) ==> t.spec_minterm(c)
}

/// Some implicant of the sequence records table index `m` as a constituent.
pub open spec fn covered_by(m: usize, v: Seq<Implicant>) -> bool {
    exists|k: int| 0 <= k < v.len() && #[trigger] v[k].covers(m)
}

/// Every minterm of the table is covered by some implicant of the sequence.
pub open spec fn covers_all(t: Table, v: Seq<Implicant>) -> bool {
    forall|m: usize| #[trigger] t.spec_minterm(m) ==> covered_by(m, v)
}

/// No two distinct implicants of the sequence can be merged by the consensus
/// rule: each is maximal among them.
pub open spec fn pairwise_unmergeable(v: Seq<Implicant>) -> bool {
    forall|k: int, j: int|
        0 <= k < v.len() && 0 <= j < v.len() && k != j ==> !#[trigger] merge_ok(
            v[k].values@,
            v[j].values@,
        )
}

/// No two implicants of the sequence share a value vector.
pub open spec fn distinct_values(v: Seq<Implicant>) -> bool {
    forall|k: int, j: int|
        #![trigger v[k].values@, v[j].values@]
        0 <= k < j < v.len() ==> v[k].values@ != v[j].values@
}

/// Table row `i` is the only row consistent with the value vector `v`.
spec fn sole_consistent_row(t: Table, v: Seq<Output>, i: usize) -> bool {
    &&& i < t.outputs@.len()
    &&& consistent_with(v, i)
    &&& forall|m: usize| m < t.outputs@.len() && #[trigger] consistent_with(v, m) ==> m == i
}

/// The implicant is the leaf of a single table row below `hi`.
spec fn leaf_row_below(t: Table, p: Implicant, hi: int) -> bool {
    exists|i: usize| i < hi && #[trigger] sole_consistent_row(t, p.values@, i)
}

/// Over the table, `p` is a true implicant with exact bookkeeping: every
/// table row consistent with its value vector has a non-forced-0 output, and
/// its recorded constituents are precisely the minterms consistent with its
/// value vector.
pub open spec fn implicant_of(t: Table, p: Implicant) -> bool {
    &&& forall|m: usize|
        m < t.outputs@.len() && #[trigger] consistent_with(p.values@, m) ==> t.outputs@[m as int]
            != Output::Zero
    &&& forall|m: usize|
        #![trigger p.covers(m)]
        #![trigger consistent_with(p.values@, m)]
        p.covers(m) <==> (t.spec_minterm(m) && consistent_with(p.values@, m))
}

/// Every implicant of the sequence is a true implicant of the table with
/// exact constituent bookkeeping.
pub open spec fn implicants_of(t: Table, v: Seq<Implicant>) -> bool {
    forall|k: int| 0 <= k < v.len() ==> #[trigger] implicant_of(t, v[k])
}

/// Two implicants with the same value vector and constituents are implicants
/// of the table together.
pub proof fn lemma_implicant_of_congruent(t: Table, p: Implicant, q: Implicant)
    requires
        implicant_of(t, p),
        q.values@ == p.values@,
        q.constituents@ == p.constituents@,
    ensures
        implicant_of(t, q),
{
    assert forall|m0: usize|
        m0 < t.outputs@.len() && #[trigger] consistent_with(q.values@, m0) implies t.outputs@[m0 as int]
        != Output::Zero by {
        assert(consistent_with(p.values@, m0));
    }
    assert forall|m0: usize| #[trigger] q.covers(m0) implies (t.spec_minterm(m0)
        && consistent_with(q.values@, m0)) by {
        assert(p.covers(m0));
        assert(consistent_with(p.values@, m0));
    }
    assert forall|m0: usize|
        t.spec_minterm(m0) && #[trigger] consistent_with(q.values@, m0) implies q.covers(m0) by {
        assert(consistent_with(p.values@, m0));
        assert(p.covers(m0));
    }
}

/// Every implicant of the sequence has exactly `g` free coordinates: it
/// belongs to merge generation `g`.
spec fn uniform_dc(v: Seq<Implicant>, g: nat) -> bool {
    forall|k: int| 0 <= k < v.len() ==> #[trigger] count_dc(v[k].values@) == g
}

/// Every implicant of the sequence has fewer than `g` free coordinates.
spec fn dc_below(v: Seq<Implicant>, g: nat) -> bool {
    forall|k: int| 0 <= k < v.len() ==> #[trigger] count_dc(v[k].values@) < g
}

/// Every constituent of `x` is also a constituent of `y`.
spec fn covers_subset(x: Implicant, y: Implicant) -> bool {
    forall|c: usize| #[trigger] x.covers(c) ==> y.covers(c)
}

/// Some implicant of the sequence subsumes all of `x`'s constituents.
spec fn subsumed_in(x: Implicant, v: Seq<Implicant>) -> bool {
    exists|e: int| 0 <= e < v.len() && covers_subset(x, #[trigger] v[e])
}

/// `x` merges with no implicant of the sequence.
spec fn unmergeable_with_all(x: Implicant, v: Seq<Implicant>) -> bool {
    forall|j: int| 0 <= j < v.len() ==> !#[trigger] merge_ok(x.values@, v[j].values@)
}

/// `x` was appended to the prime list during the pass over generation `g`,
/// at a scan position before `hi`: it is one of that generation's members,
/// and merges with none of them.
spec fn fresh_prime(x: Implicant, v: Seq<Implicant>, g: nat, hi: int) -> bool {
    &&& count_dc(x.values@) == g
    &&& unmergeable_with_all(x, v)
    &&& exists|k0: int| 0 <= k0 < hi && x.values@ == v[k0].values@
}

/// Some implicant of the suffix of `v` starting at `lo` covers `m`.
spec fn covered_from(m: usize, v: Seq<Implicant>, lo: int) -> bool {
    exists|k: int| lo <= k < v.len() && #[trigger] v[k].covers(m)
}

/// Deduplicating insertion by value-vector identity: a merged implicant whose
/// value vector is already present does not displace the existing entry but
/// contributes its constituents to it, so that no merge path's constituents
/// are ever discarded.
fn insert_merge(next: &mut Vec<Implicant>, m: Implicant)
    requires
        m.constituents@.no_duplicates(),
        forall|e: int|
            0 <= e < old(next)@.len() ==> (#[trigger] old(
                next,
            )@[e]).constituents@.no_duplicates(),
        distinct_values(old(next)@),
    ensures
        distinct_values(final(next)@),
        old(next)@.len() <= final(next)@.len() <= old(next)@.len() + 1,
        forall|e: int|
            0 <= e < old(next)@.len() ==> {
                &&& (#[trigger] final(next)@[e]).values@ == old(next)@[e].values@
                &&& final(next)@[e].constituents@.no_duplicates()
                &&& (forall|c: usize|
                    #[trigger] old(next)@[e].covers(c) ==> final(next)@[e].covers(c))
                &&& (forall|c: usize|
                    #[trigger] final(next)@[e].covers(c) ==> old(next)@[e].covers(c) || (m.covers(c)
                        && final(next)@[e].values@ == m.values@))
            },
        forall|e: int|
            old(next)@.len() <= e < final(next)@.len() ==> (#[trigger] final(next)@[e]).values@
                == m.values@ && final(next)@[e].constituents@ == m.constituents@,
        exists|e: int|
            0 <= e < final(next)@.len() && (#[trigger] final(next)@[e]).values@ == m.values@ && (
            forall|c: usize| #[trigger] m.covers(c) ==> final(next)@[e].covers(c)),
{
    let mut e: usize = 0;
    while e < next.len()
        invariant
            e <= next@.len(),
            next@ == old(next)@,
            m.constituents@.no_duplicates(),
            forall|i: int|
                0 <= i < next@.len() ==> (#[trigger] next@[i]).constituents@.no_duplicates(),
            distinct_values(next@),
            forall|i: int| 0 <= i < e ==> (#[trigger] next@[i].values@) != m.values@,
        decreases next@.len() - e,
    {
        if same_values(&next[e].values, &m.values) {
            let merged_c = union_indices(&next[e].constituents, &m.constituents);
            let vals = copy_values(&next[e].values);
            let repl = Implicant { values: vals, constituents: merged_c };
            let ghost pre = next@;
            next.set(e, repl);
            proof {
                assert(final(next)@[e as int].values@ == pre[e as int].values@);
                assert forall|i: int| 0 <= i < pre.len() && i != e implies final(next)@[i]
                    == pre[i] by {}
                assert forall|x: int, y: int|
                    #![trigger final(next)@[x].values@, final(next)@[y].values@]
                    0 <= x < y < final(next)@.len() implies final(next)@[x].values@
                    != final(next)@[y].values@ by {
                    assert(pre[x].values@ != pre[y].values@);
                    assert(final(next)@[x].values@ == pre[x].values@);
                    assert(final(next)@[y].values@ == pre[y].values@);
                }
            }
            return ;
        }
        e = e + 1;
    }
    let ghost e0 = next@.len() as int;
    next.push(m);
    proof {
        assert(next@[e0].values@ == m.values@);
        assert(next@[e0].constituents@ == m.constituents@);
        assert forall|c: usize| #[trigger] m.covers(c) implies next@[e0].covers(c) by {}
        assert forall|x: int, y: int|
            #![trigger next@[x].values@, next@[y].values@]
            0 <= x < y < next@.len() implies next@[x].values@ != next@[y].values@ by {
            if y == e0 {
                assert(next@[x].values@ != m.values@);
            } else {
                assert(old(next)@[x].values@ != old(next)@[y].values@);
            }
        }
    }
}

impl Table {
    /// The table is well-formed: it holds exactly one output per input
    /// assignment over its `n` variables.
    pub open spec fn wf(&self) -> bool {
        self.outputs@.len() == pow2(self.n as nat)
    }

    /// Table index `m` is a minterm: its required output is forced-1.
    pub open spec fn spec_minterm(&self, m: usize) -> bool {
        m < self.outputs@.len() && self.outputs@[m as int] == Output::One
    }

    /// Checked construction: a table over `n` variables must supply exactly
    /// 2^n outputs; any other length is rejected.
    pub fn new(n: usize, outputs: Vec<Output>) -> (r: Result<Table, Error>)
        ensures
            match r {
                Result::Ok(t) => {
                    &&& t.n == n
                    &&& t.outputs@ == outputs@
                    &&& t.wf()
                },
                Result::Err(e) => {
                    &&& e == Error::MalformedTable
                    &&& outputs@.len() != pow2(n as nat)
                },
            },
    {
        let len = outputs.len();
        let mut size: usize = 1;
        let mut i: usize = 0;
        proof {
            vstd::arithmetic::power2::lemma2_to64();
        }
        while i < n
            invariant
                i <= n,
                size as nat == pow2(i as nat),
                len == outputs@.len(),
            decreases n - i,
        {
            if size > usize::MAX / 2 {
                proof {
                    vstd::arithmetic::power2::lemma_pow2_unfold((i + 1) as nat);
                    if i + 1 < n {
                        vstd::arithmetic::power2::lemma_pow2_strictly_increases(
                            (i + 1) as nat,
                            n as nat,
                        );
                    }
                    assert(pow2(n as nat) >= 2 * size as nat);
                }
                return Err(Error::MalformedTable);
            }
            size = size * 2;
            i = i + 1;
            proof {
                vstd::arithmetic::power2::lemma_pow2_unfold(i as nat);
            }
        }
        if len == size {
            Ok(Table { n, outputs })
        } else {
            Err(Error::MalformedTable)
        }
    }

    /// The table's required outputs, as a strictly increasing list of
    /// indices: exactly those whose output is forced-1.
    pub fn minterms(&self) -> (r: Vec<usize>)
        ensures
            forall|m: usize| #[trigger] r@.contains(m) <==> self.spec_minterm(m),
            forall|i: int, j: int| 0 <= i < j < r@.len() ==> r@[i] < r@[j],
            r@.no_duplicates(),
    {
        let mut r: Vec<usize> = Vec::new();
        let mut idx: usize = 0;
        while idx < self.outputs.len()
            invariant
                idx <= self.outputs@.len(),
                forall|m: usize| #[trigger] r@.contains(m) <==> (self.spec_minterm(m) && m < idx),
                forall|i: int, j: int| 0 <= i < j < r@.len() ==> r@[i] < r@[j],
                forall|i: int| 0 <= i < r@.len() ==> r@[i] < idx,
            decreases self.outputs@.len() - idx,
        {
            if self.outputs[idx] == Output::One {
                r.push(idx);
            }
            idx = idx + 1;
        }
        proof {
            assert forall|i: int, j: int|
                0 <= i < r@.len() && 0 <= j < r@.len() && i != j implies r@[i] != r@[j] by {
                if i < j {
                    assert(r@[i] < r@[j]);
                } else {
                    assert(r@[j] < r@[i]);
                }
            }
        }
        r
    }

    /// Bounds-checked minterm query: reports whether index `idx` is a
    /// required output, and rejects an index outside the table.
    pub fn is_minterm(&self, idx: usize) -> (r: Result<bool, Error>)
        ensures
            idx < self.outputs@.len() ==> r == Result::<bool, Error>::Ok(self.spec_minterm(idx)),
            idx >= self.outputs@.len() ==> r == Result::<bool, Error>::Err(Error::OutOfBounds),
    {
        if idx < self.outputs.len() {
            Ok(self.outputs[idx] == Output::One)
        } else {
            Err(Error::OutOfBounds)
        }
    }

    /// One pass of the fixed-point merge: scans every unordered pair of the
    /// current generation, collects successful merges into the next
    /// generation (uniting constituents on duplicate value vectors), and
    /// appends to `primes` every implicant of the generation that merged with
    /// nothing.
    fn merge_pass(&self, gen: &Vec<Implicant>, primes: &mut Vec<Implicant>, Ghost(g): Ghost<nat>) -> (next: Vec<
        Implicant,
    >)
        requires
            implicants_wf(gen@, self.n),
            constituents_within(gen@, *self),
            uniform_dc(gen@, g),
            implicants_wf(old(primes)@, self.n),
            constituents_within(old(primes)@, *self),
            pairwise_unmergeable(old(primes)@),
            dc_below(old(primes)@, g),
            implicants_of(*self, gen@),
            implicants_of(*self, old(primes)@),
            distinct_values(gen@),
            distinct_values(old(primes)@),
        ensures
            distinct_values(next@),
            distinct_values(final(primes)@),
            implicants_wf(next@, self.n),
            constituents_within(next@, *self),
            uniform_dc(next@, (g + 1) as nat),
            implicants_of(*self, next@),
            implicants_of(*self, final(primes)@),
            final(primes)@.len() >= old(primes)@.len(),
            forall|p: int|
                0 <= p < old(primes)@.len() ==> #[trigger] final(primes)@[p] == old(primes)@[p],
            implicants_wf(final(primes)@, self.n),
            constituents_within(final(primes)@, *self),
            pairwise_unmergeable(final(primes)@),
            dc_below(final(primes)@, (g + 1) as nat),
            forall|m: usize|
                #[trigger] self.spec_minterm(m) && (covered_by(m, old(primes)@) || covered_by(
                    m,
                    gen@,
                )) ==> covered_by(m, final(primes)@) || covered_by(m, next@),
    {
        let glen = gen.len();
        let mut merged: Vec<bool> = Vec::new();
        let mut i0: usize = 0;
        while i0 < glen
            invariant
                i0 <= glen,
                merged@.len() == i0,
                forall|k: int| 0 <= k < i0 ==> merged@[k] == false,
            decreases glen - i0,
        {
            merged.push(false);
            i0 = i0 + 1;
        }
        let mut next: Vec<Implicant> = Vec::new();
        let ghost primes_start = primes@.len() as int;
        let mut fi: usize = 0;
        while fi < glen
            invariant
                fi <= glen,
                glen == gen@.len(),
                merged@.len() == glen,
                implicants_wf(gen@, self.n),
                constituents_within(gen@, *self),
                uniform_dc(gen@, g),
                distinct_values(gen@),
                implicants_wf(next@, self.n),
                constituents_within(next@, *self),
                uniform_dc(next@, (g + 1) as nat),
                implicants_of(*self, gen@),
                implicants_of(*self, next@),
                implicants_of(*self, primes@),
                forall|a: int, b: int|
                    0 <= a < fi && a <= b < glen && #[trigger] merge_ok(
                        gen@[a].values@,
                        gen@[b].values@,
                    ) ==> merged@[a] && merged@[b],
                forall|k: int|
                    0 <= k < glen && #[trigger] merged@[k] ==> subsumed_in(gen@[k], next@),
                0 <= primes_start <= primes@.len(),
                forall|p: int| 0 <= p < primes_start ==> #[trigger] primes@[p] == old(primes)@[p],
                implicants_wf(primes@, self.n),
                constituents_within(primes@, *self),
                pairwise_unmergeable(primes@),
                forall|p: int|
                    0 <= p < primes_start ==> #[trigger] count_dc(primes@[p].values@) < g,
                forall|p: int|
                    primes_start <= p < primes@.len() ==> #[trigger] fresh_prime(
                        primes@[p],
                        gen@,
                        g,
                        fi as int,
                    ),
                distinct_values(next@),
                distinct_values(primes@),
                forall|m: usize|
                    #[trigger] self.spec_minterm(m) && (covered_by(m, old(primes)@) || covered_by(
                        m,
                        gen@,
                    )) ==> covered_by(m, primes@) || covered_by(m, next@) || covered_from(
                        m,
                        gen@,
                        fi as int,
                    ),
            decreases glen - fi,
        {
            let mut si: usize = fi;
            while si < glen
                invariant
                    fi <= si <= glen,
                    fi < glen,
                    glen == gen@.len(),
                    merged@.len() == glen,
                    implicants_wf(gen@, self.n),
                    constituents_within(gen@, *self),
                    uniform_dc(gen@, g),
                    distinct_values(gen@),
                    implicants_wf(next@, self.n),
                    constituents_within(next@, *self),
                    uniform_dc(next@, (g + 1) as nat),
                    implicants_of(*self, gen@),
                    implicants_of(*self, next@),
                    implicants_of(*self, primes@),
                    forall|a: int, b: int|
                        0 <= a < fi && a <= b < glen && #[trigger] merge_ok(
                            gen@[a].values@,
                            gen@[b].values@,
                        ) ==> merged@[a] && merged@[b],
                    forall|b: int|
                        fi <= b < si && #[trigger] merge_ok(
                            gen@[fi as int].values@,
                            gen@[b].values@,
                        ) ==> merged@[fi as int] && merged@[b],
                    forall|k: int|
                        0 <= k < glen && #[trigger] merged@[k] ==> subsumed_in(gen@[k], next@),
                    0 <= primes_start <= primes@.len(),
                    forall|p: int|
                        0 <= p < primes_start ==> #[trigger] primes@[p] == old(primes)@[p],
                    implicants_wf(primes@, self.n),
                    constituents_within(primes@, *self),
                    pairwise_unmergeable(primes@),
                    forall|p: int|
                        0 <= p < primes_start ==> #[trigger] count_dc(primes@[p].values@) < g,
                    forall|p: int|
                        primes_start <= p < primes@.len() ==> #[trigger] fresh_prime(
                            primes@[p],
                            gen@,
                            g,
                            fi as int,
                        ),
                    distinct_values(next@),
                    distinct_values(primes@),
                    forall|m: usize|
                        #[trigger] self.spec_minterm(m) && (covered_by(m, old(primes)@)
                            || covered_by(m, gen@)) ==> covered_by(m, primes@) || covered_by(
                            m,
                            next@,
                        ) || covered_from(m, gen@, fi as int),
                decreases glen - si,
            {
                proof {
                    assert(gen@[fi as int].wf(self.n));
                    assert(gen@[si as int].wf(self.n));
                    assert(count_dc(gen@[fi as int].values@) == g);
                }
                let m_opt = gen[fi].try_merge(&gen[si]);
                if let Some(m) = m_opt {
                    proof {
                        let av = gen@[fi as int].values@;
                        let bv = gen@[si as int].values@;
                        let i = choose|i: int| merge_ok_at(av, bv, i);
                        assert(m.values@ == av.update(i, Output::DontCare));
                        lemma_count_dc_update(av, i);
                        assert(count_dc(m.values@) == g + 1);
                        assert forall|c: usize| #[trigger] m.covers(c) implies consistent_with(
                            m.values@,
                            c,
                        ) && self.spec_minterm(c) by {
                            assert(gen@[fi as int].covers(c) || gen@[si as int].covers(c));
                            if gen@[fi as int].covers(c) {
                                assert(consistent_with(av, c));
                            } else {
                                assert(consistent_with(bv, c));
                            }
                            lemma_merge_consistent(av, bv, i, c);
                        }
                        assert forall|e: int|
                            0 <= e < next@.len() implies (#[trigger] next@[e]).constituents@.no_duplicates() by {
                            assert(next@[e].wf(self.n));
                        }
                        // the merged term is itself a true implicant with exact
                        // constituents, by the consensus rule
                        assert(implicant_of(*self, gen@[fi as int]));
                        assert(implicant_of(*self, gen@[si as int]));
                        assert forall|m0: usize| #[trigger] m.covers(m0) implies (
                            self.spec_minterm(m0) && consistent_with(m.values@, m0)) by {
                            assert(gen@[fi as int].covers(m0) || gen@[si as int].covers(m0));
                            if gen@[fi as int].covers(m0) {
                                assert(consistent_with(av, m0));
                            } else {
                                assert(consistent_with(bv, m0));
                            }
                            lemma_merge_consistent(av, bv, i, m0);
                        }
                        assert forall|m0: usize|
                            self.spec_minterm(m0) && #[trigger] consistent_with(m.values@, m0)
                            implies m.covers(m0) by {
                            lemma_consistent_split(av, bv, i, m0);
                            if consistent_with(av, m0) {
                                assert(gen@[fi as int].covers(m0));
                            } else {
                                assert(gen@[si as int].covers(m0));
                            }
                        }
                        assert forall|m0: usize|
                            m0 < self.outputs@.len() && #[trigger] consistent_with(
                            m.values@,
                            m0,
                        ) implies self.outputs@[m0 as int] != Output::Zero by {
                            lemma_consistent_split(av, bv, i, m0);
                        }
                        assert(implicant_of(*self, m));
                    }
                    let ghost next_pre = next@;
                    insert_merge(&mut next, m);
                    proof {
                        // the next generation is still generation g + 1, well-formed
                        // and within the table's minterms
                        assert forall|e: int| 0 <= e < next@.len() implies #[trigger] next@[e].wf(
                            self.n,
                        ) && count_dc(next@[e].values@) == g + 1 by {
                            if e < next_pre.len() {
                                assert(next_pre[e].wf(self.n));
                                assert(count_dc(next_pre[e].values@) == g + 1);
                                assert(next@[e].values@ == next_pre[e].values@);
                                assert forall|c: usize|
                                    next@[e].constituents@.contains(c) implies consistent_with(
                                    next@[e].values@,
                                    c,
                                ) by {
                                    assert(next@[e].covers(c));
                                    if next_pre[e].covers(c) {
                                        assert(consistent_with(next_pre[e].values@, c));
                                    } else {
                                        assert(m.covers(c) && next@[e].values@ == m.values@);
                                        assert(consistent_with(m.values@, c));
                                    }
                                }
                            } else {
                                assert(next@[e].values@ == m.values@);
                                assert(next@[e].constituents@ == m.constituents@);
                                assert forall|c: usize|
                                    next@[e].constituents@.contains(c) implies consistent_with(
                                    next@[e].values@,
                                    c,
                                ) by {
                                    assert(m.covers(c));
                                    assert(consistent_with(m.values@, c));
                                }
                            }
                        }
                        assert forall|e: int, c: usize|
                            0 <= e < next@.len() && #[trigger] next@[e].covers(c) implies
                            self.spec_minterm(c) by {
                            if e < next_pre.len() {
                                if next_pre[e].covers(c) {
                                    assert(self.spec_minterm(c));
                                } else {
                                    assert(m.covers(c));
                                }
                            } else {
                                assert(next@[e].constituents@ == m.constituents@);
                                assert(m.covers(c));
                            }
                        }
                        assert forall|e: int| 0 <= e < next@.len() implies #[trigger] implicant_of(
                            *self,
                            next@[e],
                        ) by {
                            if e < next_pre.len() {
                                assert(implicant_of(*self, next_pre[e]));
                                assert(next@[e].values@ == next_pre[e].values@);
                                assert forall|m0: usize|
                                    m0 < self.outputs@.len() && #[trigger] consistent_with(
                                    next@[e].values@,
                                    m0,
                                ) implies self.outputs@[m0 as int] != Output::Zero by {
                                    assert(consistent_with(next_pre[e].values@, m0));
                                }
                                assert forall|m0: usize| #[trigger] next@[e].covers(m0) implies (
                                    self.spec_minterm(m0) && consistent_with(
                                    next@[e].values@,
                                    m0,
                                )) by {
                                    if next_pre[e].covers(m0) {
                                        assert(consistent_with(next_pre[e].values@, m0));
                                    } else {
                                        assert(m.covers(m0) && next@[e].values@ == m.values@);
                                        assert(consistent_with(m.values@, m0));
                                    }
                                }
                                assert forall|m0: usize|
                                    self.spec_minterm(m0) && #[trigger] consistent_with(
                                    next@[e].values@,
                                    m0,
                                ) implies next@[e].covers(m0) by {
                                    assert(consistent_with(next_pre[e].values@, m0));
                                    assert(next_pre[e].covers(m0));
                                }
                            } else {
                                assert(next@[e].values@ == m.values@);
                                assert(next@[e].constituents@ == m.constituents@);
                                assert(implicant_of(*self, m));
                                assert forall|m0: usize|
                                    m0 < self.outputs@.len() && #[trigger] consistent_with(
                                    next@[e].values@,
                                    m0,
                                ) implies self.outputs@[m0 as int] != Output::Zero by {
                                    assert(consistent_with(m.values@, m0));
                                }
                                assert forall|m0: usize| #[trigger] next@[e].covers(m0) implies (
                                    self.spec_minterm(m0) && consistent_with(
                                    next@[e].values@,
                                    m0,
                                )) by {
                                    assert(m.covers(m0));
                                    assert(consistent_with(m.values@, m0));
                                }
                                assert forall|m0: usize|
                                    self.spec_minterm(m0) && #[trigger] consistent_with(
                                    next@[e].values@,
                                    m0,
                                ) implies next@[e].covers(m0) by {
                                    assert(consistent_with(m.values@, m0));
                                    assert(m.covers(m0));
                                }
                            }
                        }
                    }
                    let ghost merged_pre = merged@;
                    merged.set(fi, true);
                    merged.set(si, true);
                    proof {
                        // every marked implicant stays subsumed by an entry of the
                        // next generation
                        assert forall|k: int|
                            0 <= k < glen && #[trigger] merged@[k] implies subsumed_in(
                            gen@[k],
                            next@,
                        ) by {
                            if k == fi as int || k == si as int {
                                assert(subsumed_in(gen@[k], next@)) by {
                                    let e = choose|e: int|
                                        0 <= e < next@.len() && (#[trigger] next@[e]).values@
                                            == m.values@ && (forall|c: usize|
                                            #[trigger] m.covers(c) ==> next@[e].covers(c));
                                    assert forall|c: usize| #[trigger] gen@[k].covers(c) implies
                                        next@[e].covers(c) by {
                                        assert(m.covers(c));
                                    }
                                    assert(covers_subset(gen@[k], next@[e]));
                                }
                            } else {
                                assert(merged_pre[k]);
                                assert(subsumed_in(gen@[k], next_pre));
                                assert(subsumed_in(gen@[k], next@)) by {
                                    let e = choose|e: int|
                                        0 <= e < next_pre.len() && covers_subset(
                                            gen@[k],
                                            #[trigger] next_pre[e],
                                        );
                                    assert forall|c: usize| #[trigger] gen@[k].covers(c) implies
                                        next@[e].covers(c) by {
                                        assert(next_pre[e].covers(c));
                                    }
                                    assert(covers_subset(gen@[k], next@[e]));
                                }
                            }
                        }
                        // coverage: entries of next only ever grow
                        assert forall|m0: usize|
                            #[trigger] self.spec_minterm(m0) && (covered_by(m0, old(primes)@)
                                || covered_by(m0, gen@)) implies covered_by(m0, primes@)
                            || covered_by(m0, next@) || covered_from(m0, gen@, fi as int) by {
                            if covered_by(m0, next_pre) {
                                let e = choose|e: int|
                                    0 <= e < next_pre.len() && #[trigger] next_pre[e].covers(m0);
                                assert(next@[e].covers(m0));
                            }
                        }
                    }
                }
                si = si + 1;
            }
            let fi_merged = merged[fi];
            if !fi_merged {
                let p = gen[fi].duplicate();
                proof {
                    // the implicant merged with nothing in its generation, so it
                    // is prime: maximal against the whole generation
                    assert forall|j: int| 0 <= j < glen implies !#[trigger] merge_ok(
                        gen@[fi as int].values@,
                        gen@[j].values@,
                    ) by {
                        if j >= fi as int {
                            if merge_ok(gen@[fi as int].values@, gen@[j].values@) {
                                assert(merged@[fi as int]);
                            }
                        } else {
                            lemma_merge_ok_sym(gen@[fi as int].values@, gen@[j].values@);
                            if merge_ok(gen@[j].values@, gen@[fi as int].values@) {
                                assert(merged@[fi as int]);
                            }
                        }
                    }
                }
                let ghost primes_pre = primes@;
                primes.push(p);
                proof {
                    assert(p.values@ == gen@[fi as int].values@);
                    assert(gen@[fi as int].wf(self.n));
                    assert(p.wf(self.n));
                    assert(count_dc(p.values@) == g);
                    assert(implicant_of(*self, gen@[fi as int]));
                    assert forall|m0: usize|
                        m0 < self.outputs@.len() && #[trigger] consistent_with(
                        p.values@,
                        m0,
                    ) implies self.outputs@[m0 as int] != Output::Zero by {
                        assert(consistent_with(gen@[fi as int].values@, m0));
                    }
                    assert forall|m0: usize| #[trigger] p.covers(m0) implies (self.spec_minterm(m0)
                        && consistent_with(p.values@, m0)) by {
                        assert(gen@[fi as int].covers(m0));
                        assert(consistent_with(gen@[fi as int].values@, m0));
                    }
                    assert forall|m0: usize|
                        self.spec_minterm(m0) && #[trigger] consistent_with(p.values@, m0) implies
                        p.covers(m0) by {
                        assert(consistent_with(gen@[fi as int].values@, m0));
                        assert(gen@[fi as int].covers(m0));
                    }
                    assert(implicant_of(*self, p));
                    assert forall|k: int| 0 <= k < primes@.len() implies #[trigger] implicant_of(
                        *self,
                        primes@[k],
                    ) by {
                        if k < primes_pre.len() {
                            assert(implicant_of(*self, primes_pre[k]));
                        }
                    }
                    assert forall|k: int| 0 <= k < primes@.len() implies #[trigger] primes@[k].wf(
                        self.n,
                    ) by {
                        if k < primes_pre.len() {
                            assert(primes_pre[k].wf(self.n));
                        }
                    }
                    assert forall|k: int, j: int|
                        0 <= k < primes@.len() && 0 <= j < primes@.len() && k != j implies
                        !#[trigger] merge_ok(primes@[k].values@, primes@[j].values@) by {
                        if k < primes_pre.len() && j < primes_pre.len() {
                            assert(!merge_ok(primes_pre[k].values@, primes_pre[j].values@));
                        } else {
                            let o = if k < primes_pre.len() {
                                k
                            } else {
                                j
                            };
                            // one of the pair is the newly pushed prime
                            if 0 <= o < primes_start {
                                assert(count_dc(primes_pre[o].values@) < g);
                                if merge_ok(primes@[k].values@, primes@[j].values@) {
                                    lemma_merge_ok_same_dc(primes@[k].values@, primes@[j].values@);
                                }
                            } else {
                                assert(fresh_prime(primes_pre[o], gen@, g, fi as int));
                                assert(!merge_ok(primes@[o].values@, gen@[fi as int].values@));
                                lemma_merge_ok_sym(primes@[o].values@, p.values@);
                            }
                        }
                    }
                    assert forall|k: int, c: usize|
                        0 <= k < primes@.len() && #[trigger] primes@[k].covers(c) implies
                        self.spec_minterm(c) by {
                        if k == primes_pre.len() {
                            assert(gen@[fi as int].covers(c));
                        }
                    }
                    assert forall|q: int|
                        primes_start <= q < primes@.len() implies #[trigger] fresh_prime(
                        primes@[q],
                        gen@,
                        g,
                        fi as int + 1,
                    ) by {
                        if q < primes_pre.len() {
                            assert(fresh_prime(primes_pre[q], gen@, g, fi as int));
                            assert(primes@[q] == primes_pre[q]);
                            let k0 = choose|k0: int|
                                0 <= k0 < fi as int && primes_pre[q].values@ == gen@[k0].values@;
                            assert(0 <= k0 < fi as int + 1 && primes@[q].values@
                                == gen@[k0].values@);
                        } else {
                            assert(primes@[q] == p);
                            assert forall|j: int| 0 <= j < gen@.len() implies !#[trigger] merge_ok(
                                p.values@,
                                gen@[j].values@,
                            ) by {
                                assert(!merge_ok(gen@[fi as int].values@, gen@[j].values@));
                            }
                            assert(unmergeable_with_all(p, gen@));
                            assert(p.values@ == gen@[fi as int].values@);
                        }
                    }
                    // no value vector is ever repeated in the prime list
                    assert forall|k: int, j: int|
                        #![trigger primes@[k].values@, primes@[j].values@]
                        0 <= k < j < primes@.len() implies primes@[k].values@
                        != primes@[j].values@ by {
                        if j < primes_pre.len() {
                            assert(primes_pre[k].values@ != primes_pre[j].values@);
                        } else {
                            assert(primes@[j].values@ == gen@[fi as int].values@);
                            if k < primes_start {
                                assert(count_dc(primes_pre[k].values@) < g);
                                assert(count_dc(gen@[fi as int].values@) == g);
                            } else {
                                assert(fresh_prime(primes_pre[k], gen@, g, fi as int));
                                let k0 = choose|k0: int|
                                    0 <= k0 < fi as int && primes_pre[k].values@
                                        == gen@[k0].values@;
                                assert(gen@[k0].values@ != gen@[fi as int].values@);
                            }
                        }
                    }
                    assert forall|m0: usize|
                        #[trigger] self.spec_minterm(m0) && (covered_by(m0, old(primes)@)
                            || covered_by(m0, gen@)) implies covered_by(m0, primes@) || covered_by(
                        m0,
                        next@,
                    ) || covered_from(m0, gen@, fi as int + 1) by {
                        if covered_by(m0, primes_pre) {
                            let k = choose|k: int|
                                0 <= k < primes_pre.len() && #[trigger] primes_pre[k].covers(m0);
                            assert(primes@[k].covers(m0));
                        } else if covered_from(m0, gen@, fi as int) {
                            let k = choose|k: int|
                                fi as int <= k < gen@.len() && #[trigger] gen@[k].covers(m0);
                            if k == fi as int {
                                assert(p.covers(m0));
                                assert(primes@[primes_pre.len() as int].covers(m0));
                            }
                        }
                    }
                }
            } else {
                proof {
                    assert forall|q: int|
                        primes_start <= q < primes@.len() implies #[trigger] fresh_prime(
                        primes@[q],
                        gen@,
                        g,
                        fi as int + 1,
                    ) by {
                        assert(fresh_prime(primes@[q], gen@, g, fi as int));
                        let k0 = choose|k0: int|
                            0 <= k0 < fi as int && primes@[q].values@ == gen@[k0].values@;
                        assert(0 <= k0 < fi as int + 1 && primes@[q].values@ == gen@[k0].values@);
                    }
                    assert forall|m0: usize|
                        #[trigger] self.spec_minterm(m0) && (covered_by(m0, old(primes)@)
                            || covered_by(m0, gen@)) implies covered_by(m0, primes@) || covered_by(
                        m0,
                        next@,
                    ) || covered_from(m0, gen@, fi as int + 1) by {
                        if covered_from(m0, gen@, fi as int) {
                            let k = choose|k: int|
                                fi as int <= k < gen@.len() && #[trigger] gen@[k].covers(m0);
                            if k == fi as int {
                                assert(subsumed_in(gen@[fi as int], next@));
                                let e = choose|e: int|
                                    0 <= e < next@.len() && covers_subset(
                                        gen@[fi as int],
                                        #[trigger] next@[e],
                                    );
                                assert(next@[e].covers(m0));
                            }
                        }
                    }
                }
            }
            fi = fi + 1;
        }
        proof {
            assert forall|k: int| 0 <= k < final(primes)@.len() implies #[trigger] count_dc(
                final(primes)@[k].values@,
            ) < g + 1 by {
                if k < primes_start {
                    assert(count_dc(primes@[k].values@) < g);
                } else {
                    assert(fresh_prime(primes@[k], gen@, g, glen as int));
                }
            }
        }
        next
    }

    /// The prime implicants of the table, by the Quine-McCluskey fixed-point
    /// merge: generation 0 holds one implicant per non-forced-0 row, each
    /// generation merges every mergeable pair (uniting constituents when two
    /// merge paths produce the same value vector), and an implicant that
    /// merges with nothing is prime. Each returned implicant is a true
    /// implicant of the table whose constituents are exactly the minterms it
    /// subsumes; together they cover every minterm, no two of them can be
    /// merged, and no value vector is returned twice.
    pub fn prime_implicants(&self) -> (r: Vec<Implicant>)
        requires
            self.wf(),
        ensures
            implicants_wf(r@, self.n),
            constituents_within(r@, *self),
            covers_all(*self, r@),
            pairwise_unmergeable(r@),
            distinct_values(r@),
            implicants_of(*self, r@),
    {
        let len = self.outputs.len();
        let mut gen: Vec<Implicant> = Vec::new();
        let mut idx: usize = 0;
        while idx < len
            invariant
                idx <= len,
                len == self.outputs@.len(),
                implicants_wf(gen@, self.n),
                constituents_within(gen@, *self),
                uniform_dc(gen@, 0),
                implicants_of(*self, gen@),
                self.wf(),
                distinct_values(gen@),
                forall|k: int| 0 <= k < gen@.len() ==> #[trigger] leaf_row_below(*self, gen@[k], idx as int),
                forall|m: usize|
                    #[trigger] self.spec_minterm(m) && m < idx ==> covered_by(m, gen@),
            decreases len - idx,
        {
            let out = self.outputs[idx];
            if out == Output::One {
                let imp = Implicant::from_table_idx(self.n, idx, true);
                let ghost gen_pre = gen@;
                gen.push(imp);
                proof {
                    assert(gen@[gen_pre.len() as int].covers(idx));
                    assert forall|m: usize|
                        #[trigger] self.spec_minterm(m) && m < idx + 1 implies covered_by(
                        m,
                        gen@,
                    ) by {
                        if m < idx {
                            let k = choose|k: int|
                                0 <= k < gen_pre.len() && #[trigger] gen_pre[k].covers(m);
                            assert(gen@[k].covers(m));
                        }
                    }
                    assert forall|k: int, c: usize|
                        0 <= k < gen@.len() && #[trigger] gen@[k].covers(c) implies
                        self.spec_minterm(c) by {
                        if k == gen_pre.len() {
                            assert(c == idx);
                        }
                    }
                    // the leaf is an exact implicant of its one table row:
                    // no other index is consistent with a fully forced vector
                    let leaf = gen@[gen_pre.len() as int];
                    assert forall|m0: usize|
                        m0 < self.outputs@.len() && #[trigger] consistent_with(
                        leaf.values@,
                        m0,
                    ) implies m0 == idx by {
                        assert forall|k: nat| k < self.n implies #[trigger] bit_set(m0, k)
                            == bit_set(idx, k) by {
                            if bit_set(idx, k) {
                                assert(leaf.values@[k as int] == Output::One);
                                assert(bit_set(m0, k));
                            } else {
                                assert(leaf.values@[k as int] == Output::Zero);
                                assert(!bit_set(m0, k));
                            }
                        }
                        lemma_bits_equal(m0, idx, self.n as nat);
                    }
                    assert(leaf.covers(idx));
                    assert(consistent_with(leaf.values@, idx));
                    assert forall|m0: usize| #[trigger] leaf.covers(m0) implies (
                        self.spec_minterm(m0) && consistent_with(leaf.values@, m0)) by {
                        assert(m0 == idx);
                    }
                    assert forall|m0: usize|
                        self.spec_minterm(m0) && #[trigger] consistent_with(
                        leaf.values@,
                        m0,
                    ) implies leaf.covers(m0) by {
                        assert(m0 == idx);
                    }
                    assert forall|m0: usize|
                        m0 < self.outputs@.len() && #[trigger] consistent_with(
                        leaf.values@,
                        m0,
                    ) implies self.outputs@[m0 as int] != Output::Zero by {
                        assert(m0 == idx);
                    }
                    assert(implicant_of(*self, leaf));
                    assert forall|k: int| 0 <= k < gen@.len() implies #[trigger] implicant_of(
                        *self,
                        gen@[k],
                    ) by {
                        if k < gen_pre.len() {
                            assert(implicant_of(*self, gen_pre[k]));
                        }
                    }
                    // a fully forced leaf pins its one table row, so no two
                    // seeds share a value vector
                    assert(consistent_with(leaf.values@, idx));
                    assert(sole_consistent_row(*self, leaf.values@, idx));
                    assert forall|k: int| 0 <= k < gen@.len() implies #[trigger] leaf_row_below(
                        *self,
                        gen@[k],
                        idx as int + 1,
                    ) by {
                        if k < gen_pre.len() {
                            assert(leaf_row_below(*self, gen_pre[k], idx as int));
                            let i = choose|i: usize|
                                i < idx && #[trigger] sole_consistent_row(
                                    *self,
                                    gen_pre[k].values@,
                                    i,
                                );
                            assert(i < idx + 1 && sole_consistent_row(*self, gen@[k].values@, i));
                        } else {
                            assert(idx < idx + 1 && sole_consistent_row(
                                *self,
                                gen@[k].values@,
                                idx,
                            ));
                        }
                    }
                    assert forall|k: int, j: int|
                        #![trigger gen@[k].values@, gen@[j].values@]
                        0 <= k < j < gen@.len() implies gen@[k].values@ != gen@[j].values@ by {
                        if j == gen_pre.len() {
                            assert(leaf_row_below(*self, gen_pre[k], idx as int));
                            let i = choose|i: usize|
                                i < idx && #[trigger] sole_consistent_row(
                                    *self,
                                    gen_pre[k].values@,
                                    i,
                                );
                            if gen@[k].values@ == leaf.values@ {
                                assert(consistent_with(gen@[k].values@, idx));
                                assert(idx == i);
                            }
                        } else {
                            assert(gen_pre[k].values@ != gen_pre[j].values@);
                        }
                    }
                }
            } else if out == Output::DontCare {
                let imp = Implicant::from_table_idx(self.n, idx, false);
                let ghost gen_pre = gen@;
                gen.push(imp);
                proof {
                    assert forall|m: usize|
                        #[trigger] self.spec_minterm(m) && m < idx + 1 implies covered_by(
                        m,
                        gen@,
                    ) by {
                        if m < idx {
                            let k = choose|k: int|
                                0 <= k < gen_pre.len() && #[trigger] gen_pre[k].covers(m);
                            assert(gen@[k].covers(m));
                        }
                    }
                    assert forall|k: int, c: usize|
                        0 <= k < gen@.len() && #[trigger] gen@[k].covers(c) implies
                        self.spec_minterm(c) by {
                        if k == gen_pre.len() {
                            assert(!gen@[k].covers(c));
                        }
                    }
                    // a free leaf records nothing, and its one consistent row
                    // is itself unconstrained
                    let leaf = gen@[gen_pre.len() as int];
                    assert forall|m0: usize|
                        m0 < self.outputs@.len() && #[trigger] consistent_with(
                        leaf.values@,
                        m0,
                    ) implies m0 == idx by {
                        assert forall|k: nat| k < self.n implies #[trigger] bit_set(m0, k)
                            == bit_set(idx, k) by {
                            if bit_set(idx, k) {
                                assert(leaf.values@[k as int] == Output::One);
                                assert(bit_set(m0, k));
                            } else {
                                assert(leaf.values@[k as int] == Output::Zero);
                                assert(!bit_set(m0, k));
                            }
                        }
                        lemma_bits_equal(m0, idx, self.n as nat);
                    }
                    assert forall|m0: usize| #[trigger] leaf.covers(m0) implies (
                        self.spec_minterm(m0) && consistent_with(leaf.values@, m0)) by {
                        assert(leaf.constituents@.len() == 0);
                    }
                    assert forall|m0: usize|
                        self.spec_minterm(m0) && #[trigger] consistent_with(
                        leaf.values@,
                        m0,
                    ) implies leaf.covers(m0) by {
                        assert(m0 == idx);
                        assert(self.outputs@[idx as int] == Output::DontCare);
                    }
                    assert forall|m0: usize|
                        m0 < self.outputs@.len() && #[trigger] consistent_with(
                        leaf.values@,
                        m0,
                    ) implies self.outputs@[m0 as int] != Output::Zero by {
                        assert(m0 == idx);
                    }
                    assert(implicant_of(*self, leaf));
                    assert forall|k: int| 0 <= k < gen@.len() implies #[trigger] implicant_of(
                        *self,
                        gen@[k],
                    ) by {
                        if k < gen_pre.len() {
                            assert(implicant_of(*self, gen_pre[k]));
                        }
                    }
                    // a fully forced leaf pins its one table row, so no two
                    // seeds share a value vector
                    assert(consistent_with(leaf.values@, idx));
                    assert(sole_consistent_row(*self, leaf.values@, idx));
                    assert forall|k: int| 0 <= k < gen@.len() implies #[trigger] leaf_row_below(
                        *self,
                        gen@[k],
                        idx as int + 1,
                    ) by {
                        if k < gen_pre.len() {
                            assert(leaf_row_below(*self, gen_pre[k], idx as int));
                            let i = choose|i: usize|
                                i < idx && #[trigger] sole_consistent_row(
                                    *self,
                                    gen_pre[k].values@,
                                    i,
                                );
                            assert(i < idx + 1 && sole_consistent_row(*self, gen@[k].values@, i));
                        } else {
                            assert(idx < idx + 1 && sole_consistent_row(
                                *self,
                                gen@[k].values@,
                                idx,
                            ));
                        }
                    }
                    assert forall|k: int, j: int|
                        #![trigger gen@[k].values@, gen@[j].values@]
                        0 <= k < j < gen@.len() implies gen@[k].values@ != gen@[j].values@ by {
                        if j == gen_pre.len() {
                            assert(leaf_row_below(*self, gen_pre[k], idx as int));
                            let i = choose|i: usize|
                                i < idx && #[trigger] sole_consistent_row(
                                    *self,
                                    gen_pre[k].values@,
                                    i,
                                );
                            if gen@[k].values@ == leaf.values@ {
                                assert(consistent_with(gen@[k].values@, idx));
                                assert(idx == i);
                            }
                        } else {
                            assert(gen_pre[k].values@ != gen_pre[j].values@);
                        }
                    }
                }
            } else {
                proof {
                    assert forall|k: int| 0 <= k < gen@.len() implies #[trigger] leaf_row_below(
                        *self,
                        gen@[k],
                        idx as int + 1,
                    ) by {
                        assert(leaf_row_below(*self, gen@[k], idx as int));
                        let i = choose|i: usize|
                            i < idx as int && #[trigger] sole_consistent_row(
                                *self,
                                gen@[k].values@,
                                i,
                            );
                        assert(i < idx as int + 1 && sole_consistent_row(
                            *self,
                            gen@[k].values@,
                            i,
                        ));
                    }
                }
            }
            idx = idx + 1;
        }
        let mut primes: Vec<Implicant> = Vec::new();
        let ghost mut g: nat = 0;
        loop
            invariant_except_break
                dc_below(primes@, g),
            invariant
                implicants_wf(gen@, self.n),
                constituents_within(gen@, *self),
                uniform_dc(gen@, g),
                implicants_of(*self, gen@),
                distinct_values(gen@),
                implicants_wf(primes@, self.n),
                constituents_within(primes@, *self),
                pairwise_unmergeable(primes@),
                distinct_values(primes@),
                implicants_of(*self, primes@),
                forall|m: usize|
                    #[trigger] self.spec_minterm(m) ==> covered_by(m, primes@) || covered_by(
                        m,
                        gen@,
                    ),
                g == 0 || (gen@.len() > 0 && g <= self.n),
            ensures
                implicants_wf(primes@, self.n),
                constituents_within(primes@, *self),
                covers_all(*self, primes@),
                pairwise_unmergeable(primes@),
                distinct_values(primes@),
                implicants_of(*self, primes@),
            decreases self.n + 1 - g,
        {
            let ghost primes_pre = primes@;
            let next = self.merge_pass(&gen, &mut primes, Ghost(g));
            proof {
                assert forall|m: usize| #[trigger] self.spec_minterm(m) implies covered_by(
                    m,
                    primes@,
                ) || covered_by(m, next@) by {
                    if covered_by(m, primes_pre) {
                        let k = choose|k: int|
                            0 <= k < primes_pre.len() && #[trigger] primes_pre[k].covers(m);
                        assert(primes@[k].covers(m));
                    }
                }
            }
            if next.len() == 0 {
                break ;
            }
            gen = next;
            proof {
                g = g + 1;
                assert(gen@.len() > 0);
                assert(gen@[0].wf(self.n));
                lemma_count_dc_le_len(gen@[0].values@);
                assert(g <= self.n);
            }
        }
        primes
    }
}

} // verus!
