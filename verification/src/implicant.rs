use vstd::prelude::*;
use vstd::arithmetic::power2::pow2;

verus! {

broadcast use vstd::seq_lib::group_seq_properties;

/// One coordinate of an implicant, and one entry of a truth table: a forced
/// bit or a free ("don't care") position.
#[derive(Clone, Copy, Debug, PartialEq, Eq, Structural)]
pub enum Output {
    Zero,
    One,
    DontCare,
}

/// The canonical character for one coordinate.
pub open spec fn output_char(o: Output) -> char {
    match o {
        Output::Zero => '0',
        Output::One => '1',
        Output::DontCare => '-',
    }
}

impl Output {
    /// The canonical character for this coordinate.
    pub fn as_char(&self) -> (r: char)
        ensures
            r == output_char(*self),
    {
        match self {
            Output::Zero => '0',
            Output::One => '1',
            Output::DontCare => '-',
        }
    }
}

/// Bit `k` of the table index `idx` (bit 0 is the least significant).
pub open spec fn bit_set(idx: usize, k: nat) -> bool {
    (idx as nat / pow2(k)) % 2 == 1
}

/// Every forced coordinate of `vals` agrees with the corresponding bit of the
/// table index `idx`; free coordinates constrain nothing.
pub open spec fn consistent_with(vals: Seq<Output>, idx: usize) -> bool {
    forall|k: int|
        0 <= k < vals.len() ==> match #[trigger] vals[k] {
            Output::One => bit_set(idx, k as nat),
            Output::Zero => !bit_set(idx, k as nat),
            Output::DontCare => true,
        }
}

/// A 0/1 pair of opposite forced values.
pub open spec fn complementary(a: Output, b: Output) -> bool {
    ||| (a == Output::Zero && b == Output::One)
    ||| (a == Output::One && b == Output::Zero)
}

/// The two value vectors agree everywhere except at coordinate `i`, where they
/// hold complementary forced bits: the consensus rule applies at `i`.
pub open spec fn merge_ok_at(a: Seq<Output>, b: Seq<Output>, i: int) -> bool {
    &&& 0 <= i < a.len()
    &&& complementary(a[i], b[i])
    &&& forall|j: int| 0 <= j < a.len() && j != i ==> a[j] == b[j]
}

/// The consensus rule applies to the two value vectors at some coordinate.
pub open spec fn merge_ok(a: Seq<Output>, b: Seq<Output>) -> bool {
    &&& a.len() == b.len()
    &&& exists|i: int| merge_ok_at(a, b, i)
}

/// How many coordinates of `s` are free.
pub open spec fn count_dc(s: Seq<Output>) -> nat
    decreases s.len(),
{
    if s.len() == 0 {
        0
    } else {
        count_dc(s.drop_last()) + if s.last() == Output::DontCare {
            1nat
        } else {
            0nat
        }
    }
}

pub proof fn lemma_count_dc_le_len(s: Seq<Output>)
    ensures
        count_dc(s) <= s.len(),
    decreases s.len(),
{
    if s.len() > 0 {
        lemma_count_dc_le_len(s.drop_last());
    }
}

pub proof fn lemma_count_dc_zero(s: Seq<Output>)
    requires
        forall|j: int| 0 <= j < s.len() ==> s[j] != Output::DontCare,
    ensures
        count_dc(s) == 0,
    decreases s.len(),
{
    if s.len() > 0 {
        lemma_count_dc_zero(s.drop_last());
    }
}

/// Two vectors with free coordinates at exactly the same positions have the
/// same number of free coordinates.
pub proof fn lemma_count_dc_pointwise(a: Seq<Output>, b: Seq<Output>)
    requires
        a.len() == b.len(),
        forall|j: int| 0 <= j < a.len() ==> ((a[j] == Output::DontCare) <==> (b[j] == Output::DontCare)),
    ensures
        count_dc(a) == count_dc(b),
    decreases a.len(),
{
    if a.len() > 0 {
        lemma_count_dc_pointwise(a.drop_last(), b.drop_last());
    }
}

/// Freeing one forced coordinate raises the free-coordinate count by one.
pub proof fn lemma_count_dc_update(a: Seq<Output>, i: int)
    requires
        0 <= i < a.len(),
        a[i] != Output::DontCare,
    ensures
        count_dc(a.update(i, Output::DontCare)) == count_dc(a) + 1,
    decreases a.len(),
{
    let b = a.update(i, Output::DontCare);
    if i == a.len() - 1 {
        assert(b.drop_last() =~= a.drop_last());
        lemma_count_dc_pointwise(b.drop_last(), a.drop_last());
    } else {
        assert(b.drop_last() =~= a.drop_last().update(i, Output::DontCare));
        lemma_count_dc_update(a.drop_last(), i);
        assert(b.last() == a.last());
    }
}

/// The consensus rule is symmetric in its two operands.
pub proof fn lemma_merge_ok_sym(a: Seq<Output>, b: Seq<Output>)
    ensures
        merge_ok(a, b) == merge_ok(b, a),
{
    if merge_ok(a, b) {
        let i = choose|i: int| merge_ok_at(a, b, i);
        assert(merge_ok_at(b, a, i));
    }
    if merge_ok(b, a) {
        let i = choose|i: int| merge_ok_at(b, a, i);
        assert(merge_ok_at(a, b, i));
    }
}

/// Mergeable vectors have their free coordinates at the same positions, so
/// they sit in the same merge generation.
pub proof fn lemma_merge_ok_same_dc(a: Seq<Output>, b: Seq<Output>)
    requires
        merge_ok(a, b),
    ensures
        count_dc(a) == count_dc(b),
{
    let i = choose|i: int| merge_ok_at(a, b, i);
    assert forall|j: int| 0 <= j < a.len() implies ((a[j] == Output::DontCare) <==> (b[j]
        == Output::DontCare)) by {
        if j != i {
            assert(a[j] == b[j]);
        }
    }
    lemma_count_dc_pointwise(a, b);
}

/// A table index consistent with either parent of a merge is consistent with
/// the merged vector.
pub proof fn lemma_merge_consistent(a: Seq<Output>, b: Seq<Output>, i: int, c: usize)
    requires
        a.len() == b.len(),
        merge_ok_at(a, b, i),
        consistent_with(a, c) || consistent_with(b, c),
    ensures
        consistent_with(a.update(i, Output::DontCare), c),
{
    let m = a.update(i, Output::DontCare);
    assert forall|k: int| 0 <= k < m.len() implies match #[trigger] m[k] {
        Output::One => bit_set(c, k as nat),
        Output::Zero => !bit_set(c, k as nat),
        Output::DontCare => true,
    } by {
        if k != i {
            assert(m[k] == a[k] && a[k] == b[k]);
        }
    }
}

/// Two table indices below 2^n with the same n low bits are equal.
pub proof fn lemma_bits_equal(m1: usize, m2: usize, n: nat)
    requires
        m1 < pow2(n),
        m2 < pow2(n),
        forall|k: nat| k < n ==> #[trigger] bit_set(m1, k) == bit_set(m2, k),
    ensures
        m1 == m2,
    decreases n,
{
    vstd::arithmetic::power2::lemma_pow2_pos(n);
    if n == 0 {
        assert(pow2(0) == 1) by {
            vstd::arithmetic::power2::lemma2_to64();
        }
    } else {
        assert(pow2(n) == 2 * pow2((n - 1) as nat)) by {
            vstd::arithmetic::power2::lemma_pow2_unfold(n);
        }
        assert(pow2(0) == 1) by {
            vstd::arithmetic::power2::lemma2_to64();
        }
        assert(bit_set(m1, 0) == bit_set(m2, 0));
        assert(m1 as nat % 2 == m2 as nat % 2);
        let h1 = m1 / 2;
        let h2 = m2 / 2;
        assert forall|k: nat| k < (n - 1) as nat implies #[trigger] bit_set(h1, k) == bit_set(
            h2,
            k,
        ) by {
            vstd::arithmetic::power2::lemma_pow2_pos(k);
            vstd::arithmetic::power2::lemma_pow2_unfold((k + 1) as nat);
            vstd::arithmetic::div_mod::lemma_div_denominator(m1 as int, 2, pow2(k) as int);
            vstd::arithmetic::div_mod::lemma_div_denominator(m2 as int, 2, pow2(k) as int);
            assert(bit_set(h1, k) == bit_set(m1, (k + 1) as nat));
            assert(bit_set(h2, k) == bit_set(m2, (k + 1) as nat));
        }
        lemma_bits_equal(h1, h2, (n - 1) as nat);
        assert(m1 == 2 * h1 + m1 % 2);
        assert(m2 == 2 * h2 + m2 % 2);
    }
}

/// A table index consistent with a merged vector is consistent with one of
/// the two parents: its bit at the freed coordinate picks the side.
pub proof fn lemma_consistent_split(a: Seq<Output>, b: Seq<Output>, i: int, c: usize)
    requires
        a.len() == b.len(),
        merge_ok_at(a, b, i),
        consistent_with(a.update(i, Output::DontCare), c),
    ensures
        consistent_with(a, c) || consistent_with(b, c),
{
    let v = a.update(i, Output::DontCare);
    let matches_a = (a[i] == Output::One && bit_set(c, i as nat)) || (a[i] == Output::Zero
        && !bit_set(c, i as nat));
    if matches_a {
        assert forall|k: int| 0 <= k < a.len() implies match #[trigger] a[k] {
            Output::One => bit_set(c, k as nat),
            Output::Zero => !bit_set(c, k as nat),
            Output::DontCare => true,
        } by {
            if k != i {
                assert(a[k] == v[k]);
            }
        }
    } else {
        assert forall|k: int| 0 <= k < b.len() implies match #[trigger] b[k] {
            Output::One => bit_set(c, k as nat),
            Output::Zero => !bit_set(c, k as nat),
            Output::DontCare => true,
        } by {
            if k != i {
                assert(b[k] == a[k] && a[k] == v[k]);
            }
        }
    }
}

/// A partial assignment over `values.len()` input variables together with the
/// set of original table indices it subsumes. Identity is by `values` alone;
/// `constituents` is payload carried for cover selection.
pub struct Implicant {
    pub values: Vec<Output>,
    pub constituents: Vec<usize>,
}

impl Implicant {
    /// Well-formed for a table over `n` variables: the value vector has
    /// exactly one coordinate per variable, and every recorded constituent is
    /// a table index the partial assignment actually subsumes.
    pub open spec fn wf(&self, n: usize) -> bool {
        &&& self.values@.len() == n
        &&& self.constituents@.no_duplicates()
        &&& forall|c: usize| self.constituents@.contains(c) ==> consistent_with(self.values@, c)
    }

    /// The implicant subsumes table index `m` and records it for coverage.
    pub open spec fn covers(&self, m: usize) -> bool {
        self.constituents@.contains(m)
    }

    /// How many table indices this implicant was derived from.
    pub fn constituent_count(&self) -> (r: usize)
        ensures
            r == self.constituents@.len(),
    {
        self.constituents.len()
    }

    /// An exact copy.
    pub fn duplicate(&self) -> (r: Implicant)
        ensures
            r.values@ == self.values@,
            r.constituents@ == self.constituents@,
    {
        Implicant { values: copy_values(&self.values), constituents: copy_indices(&self.constituents) }
    }

    /// The level-0 implicant of one table row: coordinate `k` is One exactly
    /// when bit `k` of `idx` is set, and the row is recorded as a constituent
    /// only when it is a required minterm.
    pub fn from_table_idx(n: usize, idx: usize, is_minterm: bool) -> (r: Implicant)
        ensures
            r.values@.len() == n,
            forall|k: int|
                0 <= k < n ==> r.values@[k] == (if bit_set(idx, k as nat) {
                    Output::One
                } else {
                    Output::Zero
                }),
            is_minterm ==> r.constituents@ == seq![idx],
            !is_minterm ==> r.constituents@ == Seq::<usize>::empty(),
            r.wf(n),
            count_dc(r.values@) == 0,
            r.covers(idx) == is_minterm,
            consistent_with(r.values@, idx),
    {
        let mut values: Vec<Output> = Vec::new();
        let mut cur: usize = idx;
        let mut k: usize = 0;
        proof {
            vstd::arithmetic::power2::lemma2_to64();
        }
        while k < n
            invariant
                k <= n,
                values@.len() == k,
                cur as nat == idx as nat / pow2(k as nat),
                forall|j: int|
                    0 <= j < k ==> values@[j] == (if bit_set(idx, j as nat) {
                        Output::One
                    } else {
                        Output::Zero
                    }),
            decreases n - k,
        {
            if cur % 2 == 1 {
                values.push(Output::One);
            } else {
                values.push(Output::Zero);
            }
            proof {
                vstd::arithmetic::power2::lemma_pow2_pos(k as nat);
                vstd::arithmetic::power2::lemma_pow2_unfold((k + 1) as nat);
                vstd::arithmetic::div_mod::lemma_div_denominator(
                    idx as int,
                    pow2(k as nat) as int,
                    2,
                );
                assert(cur as nat / 2 == idx as nat / pow2((k + 1) as nat));
            }
            cur = cur / 2;
            k = k + 1;
        }
        let mut constituents: Vec<usize> = Vec::new();
        if is_minterm {
            constituents.push(idx);
        }
        let r = Implicant { values, constituents };
        proof {
            if is_minterm {
                assert(r.constituents@ =~= seq![idx]);
            }
            lemma_count_dc_zero(r.values@);
            assert forall|c: usize| r.constituents@.contains(c) implies consistent_with(
                r.values@,
                c,
            ) by {
                assert(c == idx);
            }
        }
        r
    }

    /// The Quine-McCluskey consensus rule: succeeds exactly when the two value
    /// vectors differ in a single coordinate holding complementary forced
    /// bits. The merged implicant frees that coordinate and subsumes the
    /// constituents of both parents.
    pub fn try_merge(&self, other: &Implicant) -> (r: Option<Implicant>)
        requires
            self.values@.len() == other.values@.len(),
            self.constituents@.no_duplicates(),
        ensures
            (r is Some) <==> merge_ok(self.values@, other.values@),
            r matches Some(m) ==> {
                &&& m.values@.len() == self.values@.len()
                &&& forall|i: int|
                    merge_ok_at(self.values@, other.values@, i) ==> m.values@ == self.values@.update(
                        i,
                        Output::DontCare,
                    )
                &&& m.constituents@.no_duplicates()
                &&& forall|c: usize|
                    #[trigger] m.constituents@.contains(c) <==> (self.constituents@.contains(c)
                        || other.constituents@.contains(c))
            },
    {
        let n = self.values.len();
        let mut diff: Option<usize> = None;
        let mut idx: usize = 0;
        while idx < n
            invariant
                n == self.values@.len(),
                n == other.values@.len(),
                idx <= n,
                match diff {
                    Option::None => forall|j: int|
                        0 <= j < idx ==> self.values@[j] == other.values@[j],
                    Option::Some(d) => {
                        &&& 0 <= d < idx
                        &&& complementary(self.values@[d as int], other.values@[d as int])
                        &&& forall|j: int|
                            0 <= j < idx && j != d ==> self.values@[j] == other.values@[j]
                    },
                },
            decreases n - idx,
        {
            let a = self.values[idx];
            let b = other.values[idx];
            if a == b {
            } else if (a == Output::Zero && b == Output::One) || (a == Output::One && b
                == Output::Zero) {
                if diff.is_none() {
                    diff = Some(idx);
                } else {
                    proof {
                        let d = diff->Some_0;
                        assert forall|i: int| !merge_ok_at(self.values@, other.values@, i) by {
                            if merge_ok_at(self.values@, other.values@, i) {
                                if i != d as int {
                                    assert(self.values@[d as int] == other.values@[d as int]);
                                } else {
                                    assert(self.values@[idx as int] == other.values@[idx as int]);
                                }
                            }
                        }
                    }
                    return None;
                }
            } else {
                proof {
                    assert forall|i: int| !merge_ok_at(self.values@, other.values@, i) by {
                        if merge_ok_at(self.values@, other.values@, i) {
                            if i == idx as int {
                                assert(complementary(
                                    self.values@[idx as int],
                                    other.values@[idx as int],
                                ));
                            } else {
                                assert(self.values@[idx as int] == other.values@[idx as int]);
                            }
                        }
                    }
                }
                return None;
            }
            idx = idx + 1;
        }
        match diff {
            None => {
                proof {
                    assert forall|i: int| !merge_ok_at(self.values@, other.values@, i) by {
                        if merge_ok_at(self.values@, other.values@, i) {
                            assert(self.values@[i] == other.values@[i]);
                        }
                    }
                }
                None
            },
            Some(d) => {
                let mut merged_values: Vec<Output> = Vec::new();
                let mut k: usize = 0;
                while k < n
                    invariant
                        k <= n,
                        d < n,
                        n == self.values@.len(),
                        merged_values@.len() == k,
                        forall|j: int|
                            0 <= j < k ==> merged_values@[j] == (if j == d as int {
                                Output::DontCare
                            } else {
                                self.values@[j]
                            }),
                    decreases n - k,
                {
                    if k == d {
                        merged_values.push(Output::DontCare);
                    } else {
                        merged_values.push(self.values[k]);
                    }
                    k = k + 1;
                }
                let merged_constituents = union_indices(&self.constituents, &other.constituents);
                let m = Implicant { values: merged_values, constituents: merged_constituents };
                proof {
                    assert(merge_ok_at(self.values@, other.values@, d as int));
                    assert(m.values@ =~= self.values@.update(d as int, Output::DontCare));
                    assert forall|i: int|
                        merge_ok_at(self.values@, other.values@, i) implies m.values@
                        == self.values@.update(i, Output::DontCare) by {
                        if i != d as int {
                            assert(self.values@[i] == other.values@[i]);
                            assert(complementary(self.values@[i], other.values@[i]));
                        }
                    }
                }
                Some(m)
            },
        }
    }

    /// The canonical text form: the value vector rendered most significant
    /// variable first over the alphabet {'0', '1', '-'}.
    pub fn text(&self) -> (r: String)
        ensures
            r@.len() == self.values@.len(),
            forall|i: int|
                0 <= i < r@.len() ==> r@[i] == output_char(
                    self.values@[self.values@.len() - 1 - i],
                ),
    {
        let n = self.values.len();
        let mut chars: Vec<char> = Vec::new();
        let mut i: usize = 0;
        while i < n
            invariant
                i <= n,
                n == self.values@.len(),
                chars@.len() == i,
                forall|j: int|
                    0 <= j < i ==> chars@[j] == output_char(self.values@[n as int - 1 - j]),
            decreases n - i,
        {
            chars.push(self.values[n - 1 - i].as_char());
            i = i + 1;
        }
        string_from_chars(chars)
    }
}

/// Relies on `String`'s `FromIterator<char>` impl: collecting characters
/// yields the string holding exactly those characters in order.
#[verifier::external_body]
fn string_from_chars(v: Vec<char>) -> (r: String)
    ensures
        r@ == v@,
{
    v.into_iter().collect()
}

/// Value-vector equality, the identity of implicants.
pub(crate) fn same_values(a: &Vec<Output>, b: &Vec<Output>) -> (r: bool)
    ensures
        r == (a@ == b@),
{
    if a.len() != b.len() {
        return false;
    }
    let mut i: usize = 0;
    while i < a.len()
        invariant
            i <= a@.len(),
            a@.len() == b@.len(),
            forall|j: int| 0 <= j < i ==> a@[j] == b@[j],
        decreases a@.len() - i,
    {
        if a[i] != b[i] {
            return false;
        }
        i = i + 1;
    }
    proof {
        assert(a@ =~= b@);
    }
    true
}

impl PartialEq for Implicant {
    /// Identity is by the value vector alone; `constituents` is payload and
    /// takes no part in it.
    fn eq(&self, other: &Implicant) -> bool {
        same_values(&self.values, &other.values)
    }
}

impl vstd::std_specs::cmp::PartialEqSpecImpl for Implicant {
    open spec fn obeys_eq_spec() -> bool {
        true
    }

    open spec fn eq_spec(&self, other: &Implicant) -> bool {
        self.values@ == other.values@
    }
}

/// Linear membership scan.
pub(crate) fn seq_contains(v: &Vec<usize>, x: usize) -> (r: bool)
    ensures
        r == v@.contains(x),
{
    let mut i: usize = 0;
    while i < v.len()
        invariant
            i <= v@.len(),
            forall|j: int| 0 <= j < i ==> v@[j] != x,
        decreases v@.len() - i,
    {
        if v[i] == x {
            return true;
        }
        i = i + 1;
    }
    false
}

pub(crate) fn copy_values(v: &Vec<Output>) -> (r: Vec<Output>)
    ensures
        r@ == v@,
{
    let mut r: Vec<Output> = Vec::new();
    let mut i: usize = 0;
    while i < v.len()
        invariant
            i <= v@.len(),
            r@ =~= v@.take(i as int),
        decreases v@.len() - i,
    {
        r.push(v[i]);
        i = i + 1;
    }
    proof {
        assert(r@ =~= v@);
    }
    r
}

pub(crate) fn copy_indices(v: &Vec<usize>) -> (r: Vec<usize>)
    ensures
        r@ == v@,
{
    let mut r: Vec<usize> = Vec::new();
    let mut i: usize = 0;
    while i < v.len()
        invariant
            i <= v@.len(),
            r@ =~= v@.take(i as int),
        decreases v@.len() - i,
    {
        r.push(v[i]);
        i = i + 1;
    }
    proof {
        assert(r@ =~= v@);
    }
    r
}

/// The union of two constituent lists, free of duplicates.
pub(crate) fn union_indices(a: &Vec<usize>, b: &Vec<usize>) -> (r: Vec<usize>)
    requires
        a@.no_duplicates(),
    ensures
        r@.no_duplicates(),
        forall|c: usize| #[trigger] r@.contains(c) <==> (a@.contains(c) || b@.contains(c)),
{
    let mut r = copy_indices(a);
    let mut k: usize = 0;
    while k < b.len()
        invariant
            k <= b@.len(),
            r@.no_duplicates(),
            forall|c: usize|
                #[trigger] r@.contains(c) <==> (a@.contains(c) || b@.take(k as int).contains(c)),
        decreases b@.len() - k,
    {
        let x = b[k];
        let present = seq_contains(&r, x);
        proof {
            assert(b@.take(k as int + 1) =~= b@.take(k as int).push(b@[k as int]));
        }
        if !present {
            let ghost old_r = r@;
            r.push(x);
            proof {
                assert forall|p: int, q: int|
                    0 <= p < r@.len() && 0 <= q < r@.len() && p != q implies r@[p] != r@[q] by {
                    if p < old_r.len() && q < old_r.len() {
                        assert(old_r[p] != old_r[q]);
                    } else if p < old_r.len() {
                        assert(!old_r.contains(x));
                        assert(old_r[p] == r@[p]);
                    } else {
                        assert(!old_r.contains(x));
                        assert(old_r[q] == r@[q]);
                    }
                }
            }
        }
        k = k + 1;
    }
    proof {
        assert(b@.take(b@.len() as int) =~= b@);
    }
    r
}

} // verus!
