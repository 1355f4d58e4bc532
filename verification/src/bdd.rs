use vstd::prelude::*;

verus! {

use vstd::arithmetic::power2::pow2;
use vstd::arithmetic::power2::lemma_pow2_adds;
use vstd::arithmetic::power2::lemma_pow2_strictly_increases;
use vstd::arithmetic::power2::lemma2_to64;

/// The largest number of boolean state variables a manager may be created
/// with: a value's function table has `2^num_vars` entries, so this bounds
/// the memory one value may take.
pub const MAX_VARS: u64 = 20;

/// A boolean function over `num_vars` variables is modelled as its full truth
/// table: entry `s` says whether the assignment encoded by the bits of `s`
/// satisfies the function.  The table is the view of a `Bdd` value.  The
/// representation is deliberately explicit — exponential in the variable
/// count where a shared decision diagram is implicit — which is why the
/// variable count is capped; every operation's contract is exact over it.
pub open spec fn bf_const(len: nat, b: bool) -> Seq<bool> {
    Seq::new(len, |i: int| b)
}

/// Membership of assignment `s` in the state set denoted by table `v`.
pub open spec fn bf_mem(v: Seq<bool>, s: int) -> bool {
    0 <= s < v.len() && v[s]
}

/// `a` denotes a subset of `b` (as boolean functions: `a ==> b` pointwise).
pub open spec fn bf_sub(a: Seq<bool>, b: Seq<bool>) -> bool {
    a.len() == b.len() && forall|i: int| 0 <= i < a.len() && #[trigger] a[i] ==> b[i]
}

pub open spec fn bf_or(a: Seq<bool>, b: Seq<bool>) -> Seq<bool> {
    Seq::new(a.len(), |i: int| a[i] || b[i])
}

pub open spec fn bf_and(a: Seq<bool>, b: Seq<bool>) -> Seq<bool> {
    Seq::new(a.len(), |i: int| a[i] && b[i])
}

pub open spec fn bf_not(a: Seq<bool>) -> Seq<bool> {
    Seq::new(a.len(), |i: int| !a[i])
}

/// `a` minus `b`: the states of `a` not in `b`.
pub open spec fn bf_diff(a: Seq<bool>, b: Seq<bool>) -> Seq<bool> {
    Seq::new(a.len(), |i: int| a[i] && !b[i])
}

pub open spec fn bf_xor(a: Seq<bool>, b: Seq<bool>) -> Seq<bool> {
    Seq::new(a.len(), |i: int| a[i] != b[i])
}

/// Whether assignment `s` sets variable `v`.
pub open spec fn bit_set(s: u64, v: u64) -> bool {
    (s >> v) & 1u64 == 1u64
}

/// The number of satisfying assignments in a table; the termination measure
/// of every fixpoint in this crate.
pub open spec fn count_true(s: Seq<bool>) -> nat
    decreases s.len(),
{
    if s.len() == 0 {
        0
    } else {
        count_true(s.drop_last()) + if s.last() {
            1nat
        } else {
            0nat
        }
    }
}

pub proof fn lemma_count_true_le(a: Seq<bool>, b: Seq<bool>)
    requires
        bf_sub(a, b),
    ensures
        count_true(a) <= count_true(b),
    decreases a.len(),
{
    if a.len() > 0 {
        assert(bf_sub(a.drop_last(), b.drop_last()));
        lemma_count_true_le(a.drop_last(), b.drop_last());
        assert(a.last() ==> b.last());
    }
}

pub proof fn lemma_count_true_lt(a: Seq<bool>, b: Seq<bool>, w: int)
    requires
        bf_sub(a, b),
        0 <= w < a.len(),
        !a[w],
        b[w],
    ensures
        count_true(a) < count_true(b),
    decreases a.len(),
{
    if w == a.len() - 1 {
        lemma_count_true_le(a.drop_last(), b.drop_last());
    } else {
        assert(bf_sub(a.drop_last(), b.drop_last()));
        lemma_count_true_lt(a.drop_last(), b.drop_last(), w);
        assert(a.last() ==> b.last());
    }
}

pub proof fn lemma_count_true_bound(a: Seq<bool>)
    ensures
        count_true(a) <= a.len(),
    decreases a.len(),
{
    if a.len() > 0 {
        lemma_count_true_bound(a.drop_last());
    }
}

/// An arena identity for a family of values.  Operations on values require
/// that all operands belong to the same manager; `translocate` imports a
/// value of a foreign manager (over the same variables) into this one.
pub struct Manager {
    pub id: u64,
    pub num_vars: u64,
}

/// An immutable boolean function value owned by the manager whose identity it
/// carries.  Structural equality of tables is function equality: the table is
/// a canonical representation.
pub struct Bdd {
    pub mgr: u64,
    pub num_vars: u64,
    pub table: Vec<bool>,
}

impl View for Bdd {
    type V = Seq<bool>;

    open spec fn view(&self) -> Seq<bool> {
        self.table@
    }
}

impl Bdd {
    pub open spec fn inv(self) -> bool {
        self.num_vars <= MAX_VARS && self.table@.len() == pow2(self.num_vars as nat)
    }

    /// Operands of one boolean operation must share a manager and hence a
    /// variable universe.
    pub open spec fn compat(self, o: Bdd) -> bool {
        self.mgr == o.mgr && self.num_vars == o.num_vars
    }

    pub open spec fn owned_by(self, m: Manager) -> bool {
        self.mgr == m.id && self.num_vars == m.num_vars
    }
}

impl Clone for Bdd {
    fn clone(&self) -> (r: Self)
        ensures
            r.mgr == self.mgr,
            r.num_vars == self.num_vars,
            r@ == self@,
    {
        Bdd { mgr: self.mgr, num_vars: self.num_vars, table: self.table.clone() }
    }
}

impl PartialEq for Bdd {
    fn eq(&self, o: &Self) -> (r: bool) {
        if self.mgr != o.mgr || self.num_vars != o.num_vars || self.table.len() != o.table.len() {
            return false;
        }
        let n = self.table.len();
        let mut i: usize = 0;
        while i < n
            invariant
                0 <= i <= n,
                n == self.table@.len(),
                n == o.table@.len(),
                forall|k: int| 0 <= k < i ==> self.table@[k] == o.table@[k],
            decreases n - i,
        {
            if self.table[i] != o.table[i] {
                return false;
            }
            i += 1;
        }
        proof {
            assert(self.table@ =~= o.table@);
        }
        true
    }
}

impl vstd::std_specs::cmp::PartialEqSpecImpl for Bdd {
    open spec fn obeys_eq_spec() -> bool {
        true
    }

    open spec fn eq_spec(&self, o: &Self) -> bool {
        self.mgr == o.mgr && self.num_vars == o.num_vars && self.table@ == o.table@
    }
}

/// `2^num_vars` as an executable table length.
pub fn table_len(num_vars: u64) -> (r: usize)
    requires
        num_vars <= MAX_VARS,
    ensures
        r == pow2(num_vars as nat),
{
    let mut len: usize = 1;
    let mut i: u64 = 0;
    proof {
        lemma2_to64();
    }
    while i < num_vars
        invariant
            0 <= i <= num_vars,
            num_vars <= MAX_VARS,
            len == pow2(i as nat),
            len <= 0x100000,
        decreases num_vars - i,
    {
        proof {
            lemma_pow2_adds(i as nat, 1);
            lemma2_to64();
            if i + 1 < 20 {
                lemma_pow2_strictly_increases((i + 1) as nat, 20);
            }
        }
        len = len * 2;
        i = i + 1;
    }
    len
}

impl Manager {
    pub open spec fn inv(self) -> bool {
        self.num_vars <= MAX_VARS
    }

    /// A fresh arena; values of distinct managers may only meet through
    /// `translocate`.
    pub fn new(id: u64, num_vars: u64) -> (r: Self)
        requires
            num_vars <= MAX_VARS,
        ensures
            r.id == id,
            r.num_vars == num_vars,
            r.inv(),
    {
        Manager { id, num_vars }
    }

    /// The constant function: the full state space for `true`, the empty set
    /// for `false`.
    pub fn constant(&self, b: bool) -> (r: Bdd)
        requires
            self.inv(),
        ensures
            r.inv(),
            r.owned_by(*self),
            r@ == bf_const(pow2(self.num_vars as nat), b),
    {
        let len = table_len(self.num_vars);
        let mut table: Vec<bool> = Vec::new();
        let mut i: usize = 0;
        while i < len
            invariant
                0 <= i <= len,
                table@.len() == i,
                forall|k: int| 0 <= k < i ==> table@[k] == b,
            decreases len - i,
        {
            table.push(b);
            i += 1;
        }
        proof {
            assert(table@ =~= bf_const(pow2(self.num_vars as nat), b));
        }
        Bdd { mgr: self.id, num_vars: self.num_vars, table }
    }

    /// The function that is true exactly on the assignments setting
    /// variable `v`.
    pub fn ith_var(&self, v: u64) -> (r: Bdd)
        requires
            self.inv(),
            v < self.num_vars,
        ensures
            r.inv(),
            r.owned_by(*self),
            r@.len() == pow2(self.num_vars as nat),
            forall|s: int| 0 <= s < r@.len() ==> r@[s] == bit_set(s as u64, v),
    {
        let len = table_len(self.num_vars);
        let mut table: Vec<bool> = Vec::new();
        let mut i: usize = 0;
        while i < len
            invariant
                0 <= i <= len,
                table@.len() == i,
                v < 64,
                forall|k: int| 0 <= k < i ==> table@[k] == bit_set(k as u64, v),
            decreases len - i,
        {
            let b: bool = ((i as u64) >> v) & 1u64 == 1u64;
            table.push(b);
            i += 1;
        }
        Bdd { mgr: self.id, num_vars: self.num_vars, table }
    }

    /// Re-expresses a value of a foreign manager over the same variables as a
    /// value of this manager; the boolean function is preserved exactly, so
    /// translocating there and back yields a function-equal value.
    pub fn translocate(&self, b: &Bdd) -> (r: Bdd)
        requires
            self.inv(),
            b.inv(),
            b.num_vars == self.num_vars,
        ensures
            r.inv(),
            r.owned_by(*self),
            r@ == b@,
    {
        Bdd { mgr: self.id, num_vars: self.num_vars, table: b.table.clone() }
    }
}

/// The conjunction of literals `(v, polarity)`: satisfied by the assignments
/// agreeing with every literal.
pub open spec fn cube_sat(lits: Seq<(u64, bool)>, s: u64) -> bool {
    forall|k: int| 0 <= k < lits.len() ==> bit_set(s, (#[trigger] lits[k]).0) == lits[k].1
}

impl Manager {
    /// The cube of the given literals.
    pub fn cube(&self, lits: &Vec<(u64, bool)>) -> (r: Bdd)
        requires
            self.inv(),
            forall|k: int| 0 <= k < lits@.len() ==> (#[trigger] lits@[k]).0 < self.num_vars,
        ensures
            r.inv(),
            r.owned_by(*self),
            r@.len() == pow2(self.num_vars as nat),
            forall|s: int| 0 <= s < r@.len() ==> r@[s] == cube_sat(lits@, s as u64),
    {
        let len = table_len(self.num_vars);
        let mut table: Vec<bool> = Vec::new();
        let mut i: usize = 0;
        while i < len
            invariant
                0 <= i <= len,
                table@.len() == i,
                forall|k: int| 0 <= k < lits@.len() ==> (#[trigger] lits@[k]).0 < 64,
                forall|k: int| 0 <= k < i ==> table@[k] == cube_sat(lits@, k as u64),
            decreases len - i,
        {
            let mut sat = true;
            let mut j: usize = 0;
            while j < lits.len()
                invariant
                    0 <= j <= lits@.len(),
                    forall|k: int| 0 <= k < lits@.len() ==> (#[trigger] lits@[k]).0 < 64,
                    sat == forall|k: int|
                        0 <= k < j ==> bit_set(i as u64, (#[trigger] lits@[k]).0) == lits@[k].1,
                decreases lits@.len() - j,
            {
                let (v, pol) = lits[j];
                let b: bool = ((i as u64) >> v) & 1u64 == 1u64;
                if b != pol {
                    sat = false;
                }
                j += 1;
            }
            table.push(sat);
            i += 1;
        }
        Bdd { mgr: self.id, num_vars: self.num_vars, table }
    }
}

impl Bdd {
    pub fn and(&self, o: &Bdd) -> (r: Bdd)
        requires
            self.inv(),
            o.inv(),
            self.compat(*o),
        ensures
            r.inv(),
            r.mgr == self.mgr,
            r.num_vars == self.num_vars,
            r@ == bf_and(self@, o@),
    {
        let len = self.table.len();
        let mut table: Vec<bool> = Vec::new();
        let mut i: usize = 0;
        while i < len
            invariant
                0 <= i <= len,
                len == self.table@.len(),
                len == o.table@.len(),
                table@.len() == i,
                forall|k: int| 0 <= k < i ==> table@[k] == (self.table@[k] && o.table@[k]),
            decreases len - i,
        {
            table.push(self.table[i] && o.table[i]);
            i += 1;
        }
        proof {
            assert(table@ =~= bf_and(self@, o@));
        }
        Bdd { mgr: self.mgr, num_vars: self.num_vars, table }
    }

    pub fn or(&self, o: &Bdd) -> (r: Bdd)
        requires
            self.inv(),
            o.inv(),
            self.compat(*o),
        ensures
            r.inv(),
            r.mgr == self.mgr,
            r.num_vars == self.num_vars,
            r@ == bf_or(self@, o@),
    {
        let len = self.table.len();
        let mut table: Vec<bool> = Vec::new();
        let mut i: usize = 0;
        while i < len
            invariant
                0 <= i <= len,
                len == self.table@.len(),
                len == o.table@.len(),
                table@.len() == i,
                forall|k: int| 0 <= k < i ==> table@[k] == (self.table@[k] || o.table@[k]),
            decreases len - i,
        {
            table.push(self.table[i] || o.table[i]);
            i += 1;
        }
        proof {
            assert(table@ =~= bf_or(self@, o@));
        }
        Bdd { mgr: self.mgr, num_vars: self.num_vars, table }
    }

    pub fn not(&self) -> (r: Bdd)
        requires
            self.inv(),
        ensures
            r.inv(),
            r.mgr == self.mgr,
            r.num_vars == self.num_vars,
            r@ == bf_not(self@),
    {
        let len = self.table.len();
        let mut table: Vec<bool> = Vec::new();
        let mut i: usize = 0;
        while i < len
            invariant
                0 <= i <= len,
                len == self.table@.len(),
                table@.len() == i,
                forall|k: int| 0 <= k < i ==> table@[k] == !self.table@[k],
            decreases len - i,
        {
            table.push(!self.table[i]);
            i += 1;
        }
        proof {
            assert(table@ =~= bf_not(self@));
        }
        Bdd { mgr: self.mgr, num_vars: self.num_vars, table }
    }

    /// `self` with the states of `o` removed.
    pub fn diff(&self, o: &Bdd) -> (r: Bdd)
        requires
            self.inv(),
            o.inv(),
            self.compat(*o),
        ensures
            r.inv(),
            r.mgr == self.mgr,
            r.num_vars == self.num_vars,
            r@ == bf_diff(self@, o@),
    {
        let len = self.table.len();
        let mut table: Vec<bool> = Vec::new();
        let mut i: usize = 0;
        while i < len
            invariant
                0 <= i <= len,
                len == self.table@.len(),
                len == o.table@.len(),
                table@.len() == i,
                forall|k: int| 0 <= k < i ==> table@[k] == (self.table@[k] && !o.table@[k]),
            decreases len - i,
        {
            table.push(self.table[i] && !o.table[i]);
            i += 1;
        }
        proof {
            assert(table@ =~= bf_diff(self@, o@));
        }
        Bdd { mgr: self.mgr, num_vars: self.num_vars, table }
    }

    pub fn xor(&self, o: &Bdd) -> (r: Bdd)
        requires
            self.inv(),
            o.inv(),
            self.compat(*o),
        ensures
            r.inv(),
            r.mgr == self.mgr,
            r.num_vars == self.num_vars,
            r@ == bf_xor(self@, o@),
    {
        let len = self.table.len();
        let mut table: Vec<bool> = Vec::new();
        let mut i: usize = 0;
        while i < len
            invariant
                0 <= i <= len,
                len == self.table@.len(),
                len == o.table@.len(),
                table@.len() == i,
                forall|k: int| 0 <= k < i ==> table@[k] == (self.table@[k] != o.table@[k]),
            decreases len - i,
        {
            table.push(self.table[i] != o.table[i]);
            i += 1;
        }
        proof {
            assert(table@ =~= bf_xor(self@, o@));
        }
        Bdd { mgr: self.mgr, num_vars: self.num_vars, table }
    }

    /// Whether this value denotes no state at all.
    pub open spec fn spec_is_false(self) -> bool {
        forall|s: int| 0 <= s < self@.len() ==> !self@[s]
    }

    /// Whether this is the constant function `b`; `is_constant(false)` is the
    /// emptiness test every fixpoint terminates on.
    pub fn is_constant(&self, b: bool) -> (r: bool)
        requires
            self.inv(),
        ensures
            r == (forall|s: int| 0 <= s < self@.len() ==> self@[s] == b),
    {
        let len = self.table.len();
        let mut i: usize = 0;
        while i < len
            invariant
                0 <= i <= len,
                len == self.table@.len(),
                forall|k: int| 0 <= k < i ==> self.table@[k] == b,
            decreases len - i,
        {
            if self.table[i] != b {
                proof {
                    assert(self@[i as int] != b);
                }
                return false;
            }
            i += 1;
        }
        true
    }
}

/// The views of a vector of values: one table per automaton-state slot.
pub open spec fn views(s: Seq<Bdd>) -> Seq<Seq<bool>> {
    Seq::new(s.len(), |i: int| s[i]@)
}

/// Every value of the vector is well formed and owned by manager `m`.
pub open spec fn all_owned(s: Seq<Bdd>, m: Manager) -> bool {
    forall|i: int| 0 <= i < s.len() ==> (#[trigger] s[i]).inv() && s[i].owned_by(m)
}

/// Slot-wise containment of two vectors of state sets.
pub open spec fn vf_sub(a: Seq<Seq<bool>>, b: Seq<Seq<bool>>) -> bool {
    a.len() == b.len() && forall|j: int| 0 <= j < a.len() ==> bf_sub(#[trigger] a[j], b[j])
}

pub open spec fn vf_or(a: Seq<Seq<bool>>, b: Seq<Seq<bool>>) -> Seq<Seq<bool>> {
    Seq::new(a.len(), |j: int| bf_or(a[j], b[j]))
}

pub open spec fn vf_and(a: Seq<Seq<bool>>, b: Seq<Seq<bool>>) -> Seq<Seq<bool>> {
    Seq::new(a.len(), |j: int| bf_and(a[j], b[j]))
}

/// Every slot is a table over the same `len`-entry state space.
pub open spec fn vf_wf(a: Seq<Seq<bool>>, len: nat) -> bool {
    forall|j: int| 0 <= j < a.len() ==> (#[trigger] a[j]).len() == len
}

/// The all-empty vector of `n` slots.
pub open spec fn vf_false(n: nat, len: nat) -> Seq<Seq<bool>> {
    Seq::new(n, |j: int| bf_const(len, false))
}

/// No slot holds any state.
pub open spec fn vf_empty(a: Seq<Seq<bool>>) -> bool {
    forall|j: int, x: int| 0 <= j < a.len() && 0 <= x < a[j].len() ==> !(#[trigger] a[j][x])
}

/// Slot-wise difference: `a` with the states of `b` removed.
pub open spec fn vf_diff(a: Seq<Seq<bool>>, b: Seq<Seq<bool>>) -> Seq<Seq<bool>> {
    Seq::new(a.len(), |j: int| bf_diff(a[j], b[j]))
}

pub proof fn lemma_vf_sub_trans(a: Seq<Seq<bool>>, b: Seq<Seq<bool>>, c: Seq<Seq<bool>>)
    requires
        vf_sub(a, b),
        vf_sub(b, c),
    ensures
        vf_sub(a, c),
{
    assert forall|j: int| 0 <= j < a.len() implies bf_sub(#[trigger] a[j], c[j]) by {
        assert(bf_sub(a[j], b[j]));
        assert(bf_sub(b[j], c[j]));
        assert forall|x: int| 0 <= x < a[j].len() && #[trigger] a[j][x] implies c[j][x] by {
            assert(b[j][x]);
        }
    }
}

/// Both halves sit inside a union, and a union of parts of `c` sits in `c`.
pub proof fn lemma_vf_or_bounds(a: Seq<Seq<bool>>, b: Seq<Seq<bool>>, c: Seq<Seq<bool>>)
    requires
        a.len() == b.len(),
        forall|j: int| 0 <= j < a.len() ==> (#[trigger] a[j]).len() == b[j].len(),
        vf_sub(a, c),
        vf_sub(b, c),
    ensures
        vf_sub(vf_or(a, b), c),
{
    assert forall|j: int| 0 <= j < a.len() implies bf_sub(#[trigger] vf_or(a, b)[j], c[j]) by {
        assert(bf_sub(a[j], c[j]));
        assert(bf_sub(b[j], c[j]));
        assert forall|x: int|
            0 <= x < vf_or(a, b)[j].len() && #[trigger] vf_or(a, b)[j][x] implies c[j][x] by {
            assert(a[j][x] || b[j][x]);
        }
    }
}

pub proof fn lemma_vf_or_upper(a: Seq<Seq<bool>>, b: Seq<Seq<bool>>)
    requires
        a.len() == b.len(),
        forall|j: int| 0 <= j < a.len() ==> (#[trigger] a[j]).len() == b[j].len(),
    ensures
        vf_sub(a, vf_or(a, b)),
        vf_sub(b, vf_or(a, b)),
{
    assert forall|j: int| 0 <= j < a.len() implies bf_sub(#[trigger] a[j], vf_or(a, b)[j])
        && bf_sub(b[j], vf_or(a, b)[j]) by {
        assert(vf_or(a, b)[j].len() == a[j].len());
    }
}

/// Total number of states over all slots: the fixpoint termination measure.
pub open spec fn sum_count(a: Seq<Seq<bool>>) -> nat
    decreases a.len(),
{
    if a.len() == 0 {
        0
    } else {
        sum_count(a.drop_last()) + count_true(a.last())
    }
}

pub proof fn lemma_sum_count_le(a: Seq<Seq<bool>>, b: Seq<Seq<bool>>)
    requires
        vf_sub(a, b),
    ensures
        sum_count(a) <= sum_count(b),
    decreases a.len(),
{
    if a.len() > 0 {
        assert(vf_sub(a.drop_last(), b.drop_last()));
        lemma_sum_count_le(a.drop_last(), b.drop_last());
        assert(bf_sub(a.last(), b.last()));
        lemma_count_true_le(a.last(), b.last());
    }
}

pub proof fn lemma_sum_count_lt(a: Seq<Seq<bool>>, b: Seq<Seq<bool>>, j: int, w: int)
    requires
        vf_sub(a, b),
        0 <= j < a.len(),
        0 <= w < a[j].len(),
        !a[j][w],
        b[j][w],
    ensures
        sum_count(a) < sum_count(b),
    decreases a.len(),
{
    if j == a.len() - 1 {
        assert(vf_sub(a.drop_last(), b.drop_last()));
        lemma_sum_count_le(a.drop_last(), b.drop_last());
        assert(bf_sub(a.last(), b.last()));
        lemma_count_true_lt(a.last(), b.last(), w);
    } else {
        assert(vf_sub(a.drop_last(), b.drop_last()));
        lemma_sum_count_lt(a.drop_last(), b.drop_last(), j, w);
        assert(bf_sub(a.last(), b.last()));
        lemma_count_true_le(a.last(), b.last());
    }
}

pub proof fn lemma_sum_count_bound(a: Seq<Seq<bool>>, len: nat)
    requires
        vf_wf(a, len),
    ensures
        sum_count(a) <= a.len() * len,
    decreases a.len(),
{
    if a.len() > 0 {
        assert(vf_wf(a.drop_last(), len));
        lemma_sum_count_bound(a.drop_last(), len);
        lemma_count_true_bound(a.last());
        assert((a.len() - 1) * len + len == a.len() * len) by (nonlinear_arith);
    }
}

} // verus!
