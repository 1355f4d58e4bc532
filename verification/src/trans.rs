use vstd::prelude::*;

verus! {

use vstd::arithmetic::power2::pow2;
use crate::bdd::{Bdd, Manager, MAX_VARS, table_len, bf_mem, bf_sub, bf_or};

/// The one-step transition relation of the system under check, as the set of
/// `(source, destination)` assignment pairs, together with the initial-state
/// predicate and the justice (fairness) constraints, all owned by one
/// manager.  It is the model-side stand-in for a symbolic transition relation
/// exposing `pre_image` and `post_image`.  The justice list is carried for
/// front ends that record fairness on the system; the checking engine itself
/// receives fairness folded into the property (`G F` over each constraint in
/// the property construction), so no fixpoint here reads the list.
pub struct TransitionSystem {
    pub mgr: u64,
    pub num_vars: u64,
    pub pairs: Vec<(u64, u64)>,
    pub init: Bdd,
    pub justice: Vec<Bdd>,
}

/// Successors of the states of `v` under the pairs `pairs`.
pub open spec fn post_img(pairs: Seq<(u64, u64)>, v: Seq<bool>, len: nat) -> Seq<bool> {
    Seq::new(
        len as nat,
        |t: int|
            exists|k: int|
                0 <= k < pairs.len() && (#[trigger] pairs[k]).1 == t && bf_mem(v, pairs[k].0 as int),
    )
}

/// Predecessors of the states of `v` under the pairs `pairs`.
pub open spec fn pre_img(pairs: Seq<(u64, u64)>, v: Seq<bool>, len: nat) -> Seq<bool> {
    Seq::new(
        len as nat,
        |s: int|
            exists|k: int|
                0 <= k < pairs.len() && (#[trigger] pairs[k]).0 == s && bf_mem(v, pairs[k].1 as int),
    )
}

/// One name for both image directions: `forward` takes successors.
pub open spec fn img(pairs: Seq<(u64, u64)>, forward: bool, v: Seq<bool>, len: nat) -> Seq<bool> {
    if forward {
        post_img(pairs, v, len)
    } else {
        pre_img(pairs, v, len)
    }
}

pub proof fn lemma_img_monotone(pairs: Seq<(u64, u64)>, forward: bool, a: Seq<bool>, b: Seq<bool>, len: nat)
    requires
        bf_sub(a, b),
    ensures
        bf_sub(img(pairs, forward, a, len), img(pairs, forward, b, len)),
{
    assert forall|t: int|
        0 <= t < len && #[trigger] img(pairs, forward, a, len)[t] implies img(
        pairs,
        forward,
        b,
        len,
    )[t] by {
        if forward {
            let k = choose|k: int|
                0 <= k < pairs.len() && (#[trigger] pairs[k]).1 == t && bf_mem(a, pairs[k].0 as int);
            assert(bf_mem(b, pairs[k].0 as int));
        } else {
            let k = choose|k: int|
                0 <= k < pairs.len() && (#[trigger] pairs[k]).0 == t && bf_mem(a, pairs[k].1 as int);
            assert(bf_mem(b, pairs[k].1 as int));
        }
    }
}

/// The image of a union is the union of the images.
pub proof fn lemma_img_or(pairs: Seq<(u64, u64)>, forward: bool, a: Seq<bool>, b: Seq<bool>, len: nat)
    requires
        a.len() == b.len(),
    ensures
        img(pairs, forward, bf_or(a, b), len) =~= bf_or(
            img(pairs, forward, a, len),
            img(pairs, forward, b, len),
        ),
{
    assert forall|t: int| 0 <= t < len implies img(pairs, forward, bf_or(a, b), len)[t] == bf_or(
        img(pairs, forward, a, len),
        img(pairs, forward, b, len),
    )[t] by {
        if forward {
            if img(pairs, forward, bf_or(a, b), len)[t] {
                let k = choose|k: int|
                    0 <= k < pairs.len() && (#[trigger] pairs[k]).1 == t && bf_mem(
                        bf_or(a, b),
                        pairs[k].0 as int,
                    );
                if a[pairs[k].0 as int] {
                    assert(bf_mem(a, pairs[k].0 as int));
                } else {
                    assert(bf_mem(b, pairs[k].0 as int));
                }
            }
            if img(pairs, forward, a, len)[t] {
                let k = choose|k: int|
                    0 <= k < pairs.len() && (#[trigger] pairs[k]).1 == t && bf_mem(a, pairs[k].0 as int);
                assert(bf_mem(bf_or(a, b), pairs[k].0 as int));
            }
            if img(pairs, forward, b, len)[t] {
                let k = choose|k: int|
                    0 <= k < pairs.len() && (#[trigger] pairs[k]).1 == t && bf_mem(b, pairs[k].0 as int);
                assert(bf_mem(bf_or(a, b), pairs[k].0 as int));
            }
        } else {
            if img(pairs, forward, bf_or(a, b), len)[t] {
                let k = choose|k: int|
                    0 <= k < pairs.len() && (#[trigger] pairs[k]).0 == t && bf_mem(
                        bf_or(a, b),
                        pairs[k].1 as int,
                    );
                if a[pairs[k].1 as int] {
                    assert(bf_mem(a, pairs[k].1 as int));
                } else {
                    assert(bf_mem(b, pairs[k].1 as int));
                }
            }
            if img(pairs, forward, a, len)[t] {
                let k = choose|k: int|
                    0 <= k < pairs.len() && (#[trigger] pairs[k]).0 == t && bf_mem(a, pairs[k].1 as int);
                assert(bf_mem(bf_or(a, b), pairs[k].1 as int));
            }
            if img(pairs, forward, b, len)[t] {
                let k = choose|k: int|
                    0 <= k < pairs.len() && (#[trigger] pairs[k]).0 == t && bf_mem(b, pairs[k].1 as int);
                assert(bf_mem(bf_or(a, b), pairs[k].1 as int));
            }
        }
    }
}

impl TransitionSystem {
    pub open spec fn state_len(self) -> nat {
        pow2(self.num_vars as nat)
    }

    pub open spec fn inv(self) -> bool {
        &&& self.num_vars <= MAX_VARS
        &&& forall|k: int|
            0 <= k < self.pairs@.len() ==> ((#[trigger] self.pairs@[k]).0 < self.state_len()
                && self.pairs@[k].1 < self.state_len())
        &&& self.init.inv()
        &&& self.init.mgr == self.mgr
        &&& self.init.num_vars == self.num_vars
        &&& forall|j: int|
            0 <= j < self.justice@.len() ==> (#[trigger] self.justice@[j]).inv()
                && self.justice@[j].mgr == self.mgr && self.justice@[j].num_vars == self.num_vars
    }

    /// A new system over the manager `m`; every pair must stay inside the
    /// state space and the initial predicate must be owned by `m`.
    pub fn new(m: &Manager, pairs: Vec<(u64, u64)>, init: Bdd, justice: Vec<Bdd>) -> (r: Self)
        requires
            m.inv(),
            forall|k: int|
                0 <= k < pairs@.len() ==> ((#[trigger] pairs@[k]).0 < pow2(m.num_vars as nat)
                    && pairs@[k].1 < pow2(m.num_vars as nat)),
            init.inv(),
            init.owned_by(*m),
            forall|j: int|
                0 <= j < justice@.len() ==> (#[trigger] justice@[j]).inv() && justice@[j].owned_by(
                    *m,
                ),
        ensures
            r.inv(),
            r.mgr == m.id,
            r.num_vars == m.num_vars,
            r.pairs@ == pairs@,
            r.init == init,
            r.justice@ == justice@,
    {
        TransitionSystem { mgr: m.id, num_vars: m.num_vars, pairs, init, justice }
    }

    /// The same system re-expressed in a fresh manager: every predicate keeps
    /// its boolean function, only the ownership changes.
    pub fn clone_with_new_manager(&self, new_id: u64) -> (r: Self)
        requires
            self.inv(),
        ensures
            r.inv(),
            r.mgr == new_id,
            r.num_vars == self.num_vars,
            r.pairs@ == self.pairs@,
            r.init@ == self.init@,
            r.justice@.len() == self.justice@.len(),
            forall|j: int| 0 <= j < r.justice@.len() ==> (#[trigger] r.justice@[j])@ == self.justice@[j]@,
    {
        let m = Manager { id: new_id, num_vars: self.num_vars };
        let init = m.translocate(&self.init);
        let mut justice: Vec<Bdd> = Vec::new();
        let mut j: usize = 0;
        while j < self.justice.len()
            invariant
                0 <= j <= self.justice@.len(),
                self.inv(),
                m.id == new_id,
                m.num_vars == self.num_vars,
                justice@.len() == j,
                forall|k: int|
                    0 <= k < j ==> (#[trigger] justice@[k]).inv() && justice@[k].owned_by(m)
                        && justice@[k]@ == self.justice@[k]@,
            decreases self.justice@.len() - j,
        {
            justice.push(m.translocate(&self.justice[j]));
            j += 1;
        }
        let mut pairs: Vec<(u64, u64)> = Vec::new();
        let mut k: usize = 0;
        while k < self.pairs.len()
            invariant
                0 <= k <= self.pairs@.len(),
                pairs@.len() == k,
                forall|i: int| 0 <= i < k ==> pairs@[i] == self.pairs@[i],
            decreases self.pairs@.len() - k,
        {
            pairs.push(self.pairs[k]);
            k += 1;
        }
        proof {
            assert(pairs@ =~= self.pairs@);
        }
        TransitionSystem { mgr: new_id, num_vars: self.num_vars, pairs, init, justice }
    }

    /// Successors of `v` in one step.
    pub fn post_image(&self, v: &Bdd) -> (r: Bdd)
        requires
            self.inv(),
            v.inv(),
            v.mgr == self.mgr,
            v.num_vars == self.num_vars,
        ensures
            r.inv(),
            r.mgr == self.mgr,
            r.num_vars == self.num_vars,
            r@ == post_img(self.pairs@, v@, self.state_len()),
    {
        self.image(true, v)
    }

    /// Predecessors of `v` in one step.
    pub fn pre_image(&self, v: &Bdd) -> (r: Bdd)
        requires
            self.inv(),
            v.inv(),
            v.mgr == self.mgr,
            v.num_vars == self.num_vars,
        ensures
            r.inv(),
            r.mgr == self.mgr,
            r.num_vars == self.num_vars,
            r@ == pre_img(self.pairs@, v@, self.state_len()),
    {
        self.image(false, v)
    }

    /// One image step in the chosen direction.
    pub fn image(&self, forward: bool, v: &Bdd) -> (r: Bdd)
        requires
            self.inv(),
            v.inv(),
            v.mgr == self.mgr,
            v.num_vars == self.num_vars,
        ensures
            r.inv(),
            r.mgr == self.mgr,
            r.num_vars == self.num_vars,
            r@ == img(self.pairs@, forward, v@, self.state_len()),
    {
        let len = table_len(self.num_vars);
        let mut table: Vec<bool> = Vec::new();
        let mut i: usize = 0;
        while i < len
            invariant
                0 <= i <= len,
                table@.len() == i,
                forall|k: int| 0 <= k < i ==> !table@[k],
            decreases len - i,
        {
            table.push(false);
            i += 1;
        }
        let mut k: usize = 0;
        while k < self.pairs.len()
            invariant
                0 <= k <= self.pairs@.len(),
                self.inv(),
                v.inv(),
                v.num_vars == self.num_vars,
                len == self.state_len(),
                table@.len() == len,
                forall|t: int|
                    0 <= t < len ==> table@[t] == exists|k2: int|
                        0 <= k2 < k && (if forward {
                            (#[trigger] self.pairs@[k2]).1 == t && bf_mem(v@, self.pairs@[k2].0 as int)
                        } else {
                            (#[trigger] self.pairs@[k2]).0 == t && bf_mem(v@, self.pairs@[k2].1 as int)
                        }),
            decreases self.pairs@.len() - k,
        {
            let (s, t) = self.pairs[k];
            let (src, dst) = if forward {
                (s, t)
            } else {
                (t, s)
            };
            if v.table[src as usize] {
                table[dst as usize] = true;
            }
            k += 1;
        }
        proof {
            assert(table@ =~= img(self.pairs@, forward, v@, self.state_len()));
        }
        Bdd { mgr: self.mgr, num_vars: self.num_vars, table }
    }
}

} // verus!
