use vstd::prelude::*;

verus! {

use vstd::arithmetic::power2::pow2;
use crate::bdd::{Bdd, Manager, bf_mem, bf_sub, bf_or, bf_and, bf_diff, bf_const, views, vf_sub,
    vf_or, vf_wf, vf_false, vf_empty};
use crate::trans::{TransitionSystem, post_img, pre_img, lemma_img_monotone, lemma_img_or};
use crate::automata::BuchiAutomata;
use crate::command::{Args, Statistic};

/// The partitioned symbolic model checker: one system, one property automaton
/// over the same manager, and the run configuration.  The product of system
/// and automaton is never materialised; the engine carries one state set per
/// automaton state and lets the edges gate what flows between the slots.
pub struct PartitionedSmc {
    pub manager: Manager,
    pub fsm: TransitionSystem,
    pub automata: BuchiAutomata,
    pub args: Args,
    pub statistic: Statistic,
}

/// Whether `x` lies in the optional per-slot constraint at slot `j`;
/// no constraint admits everything.
pub open spec fn copt(c: Option<Seq<Seq<bool>>>, j: int, x: int) -> bool {
    match c {
        Option::None => true,
        Option::Some(cs) => bf_mem(cs[j], x),
    }
}

/// The union, over the forward edges `i --label--> j` with destination `j`,
/// of the states of `r[i]` allowed through by the label: what flows into
/// slot `j` before the image is taken.
pub open spec fn gather_fwd(aut: BuchiAutomata, r: Seq<Seq<bool>>, j: int, len: nat) -> Seq<bool> {
    Seq::new(
        len,
        |x: int|
            exists|i: int, e: int|
                0 <= i < aut.ns() && 0 <= e < aut.forward@[i]@.len() && (
                #[trigger] aut.forward@[i]@[e]).0 == j && bf_mem(r[i], x) && bf_mem(
                    aut.forward@[i]@[e].1@,
                    x,
                ),
    )
}

/// One forward round: per destination slot, the successors of everything the
/// automaton edges let flow into that slot.
pub open spec fn step_post(
    aut: BuchiAutomata,
    pairs: Seq<(u64, u64)>,
    r: Seq<Seq<bool>>,
    len: nat,
) -> Seq<Seq<bool>> {
    Seq::new(aut.ns(), |j: int| post_img(pairs, gather_fwd(aut, r, j, len), len))
}

/// One backward round into slot `j`: predecessors of `r[i]` for each edge
/// `j --label--> i`, gated by the label, all intersected with the optional
/// constraint at `j`.
pub open spec fn step_pre_at(
    aut: BuchiAutomata,
    pairs: Seq<(u64, u64)>,
    c: Option<Seq<Seq<bool>>>,
    r: Seq<Seq<bool>>,
    j: int,
    len: nat,
) -> Seq<bool> {
    Seq::new(
        len,
        |x: int|
            (exists|i: int, e: int|
                0 <= i < aut.ns() && 0 <= e < aut.backward@[i]@.len() && (
                #[trigger] aut.backward@[i]@[e]).0 == j && bf_mem(
                    pre_img(pairs, r[i], len),
                    x,
                ) && bf_mem(aut.backward@[i]@[e].1@, x)) && copt(c, j, x),
    )
}

pub open spec fn step_pre(
    aut: BuchiAutomata,
    pairs: Seq<(u64, u64)>,
    c: Option<Seq<Seq<bool>>>,
    r: Seq<Seq<bool>>,
    len: nat,
) -> Seq<Seq<bool>> {
    Seq::new(aut.ns(), |j: int| step_pre_at(aut, pairs, c, r, j, len))
}

/// `r` contains `from` and one forward round of `r` leads back into `r`.
pub open spec fn post_fp(
    aut: BuchiAutomata,
    pairs: Seq<(u64, u64)>,
    from: Seq<Seq<bool>>,
    r: Seq<Seq<bool>>,
    len: nat,
) -> bool {
    vf_sub(from, r) && vf_sub(step_post(aut, pairs, r, len), r)
}

/// `r` is the least vector containing `from` that is closed under the
/// forward round: the exact contract of forward reachability.
pub open spec fn is_post_lfp(
    aut: BuchiAutomata,
    pairs: Seq<(u64, u64)>,
    from: Seq<Seq<bool>>,
    r: Seq<Seq<bool>>,
    len: nat,
) -> bool {
    post_fp(aut, pairs, from, r, len) && forall|s: Seq<Seq<bool>>|
        #[trigger] post_fp(aut, pairs, from, s, len) ==> vf_sub(r, s)
}

/// One backward round of `from ∪ r` leads into `r`: so `r` holds every state
/// that reaches `from` in one or more rounds (it does not contain `from`
/// itself unless reached again).
pub open spec fn pre_fp(
    aut: BuchiAutomata,
    pairs: Seq<(u64, u64)>,
    c: Option<Seq<Seq<bool>>>,
    from: Seq<Seq<bool>>,
    r: Seq<Seq<bool>>,
    len: nat,
) -> bool {
    r.len() == aut.ns() && vf_wf(r, len) && from.len() == aut.ns() && vf_sub(
        step_pre(aut, pairs, c, vf_or(from, r), len),
        r,
    )
}

/// `r` is the least such vector: the exact contract of constrained backward
/// reachability.
pub open spec fn is_pre_lfp(
    aut: BuchiAutomata,
    pairs: Seq<(u64, u64)>,
    c: Option<Seq<Seq<bool>>>,
    from: Seq<Seq<bool>>,
    r: Seq<Seq<bool>>,
    len: nat,
) -> bool {
    pre_fp(aut, pairs, c, from, r, len) && forall|s: Seq<Seq<bool>>|
        #[trigger] pre_fp(aut, pairs, c, from, s, len) ==> vf_sub(r, s)
}

pub proof fn lemma_gather_fwd_monotone(
    aut: BuchiAutomata,
    a: Seq<Seq<bool>>,
    b: Seq<Seq<bool>>,
    j: int,
    len: nat,
)
    requires
        vf_sub(a, b),
        a.len() == aut.ns(),
    ensures
        bf_sub(gather_fwd(aut, a, j, len), gather_fwd(aut, b, j, len)),
{
    assert forall|x: int|
        0 <= x < len && #[trigger] gather_fwd(aut, a, j, len)[x] implies gather_fwd(
        aut,
        b,
        j,
        len,
    )[x] by {
        let (i, e) = choose|i: int, e: int|
            0 <= i < aut.ns() && 0 <= e < aut.forward@[i]@.len() && (
            #[trigger] aut.forward@[i]@[e]).0 == j && bf_mem(a[i], x) && bf_mem(
                aut.forward@[i]@[e].1@,
                x,
            );
        if 0 <= i < a.len() {
            assert(bf_sub(a[i], b[i]));
            assert(bf_mem(b[i], x));
        }
    }
}

pub proof fn lemma_step_post_monotone(
    aut: BuchiAutomata,
    pairs: Seq<(u64, u64)>,
    a: Seq<Seq<bool>>,
    b: Seq<Seq<bool>>,
    len: nat,
)
    requires
        vf_sub(a, b),
        a.len() == aut.ns(),
    ensures
        vf_sub(step_post(aut, pairs, a, len), step_post(aut, pairs, b, len)),
{
    assert forall|j: int| 0 <= j < aut.ns() implies bf_sub(
        #[trigger] step_post(aut, pairs, a, len)[j],
        step_post(aut, pairs, b, len)[j],
    ) by {
        lemma_gather_fwd_monotone(aut, a, b, j, len);
        lemma_img_monotone(pairs, true, gather_fwd(aut, a, j, len), gather_fwd(aut, b, j, len), len);
    }
}

pub proof fn lemma_gather_fwd_or(
    aut: BuchiAutomata,
    a: Seq<Seq<bool>>,
    b: Seq<Seq<bool>>,
    j: int,
    len: nat,
)
    requires
        a.len() == b.len(),
        a.len() == aut.ns(),
        vf_wf(a, len),
        vf_wf(b, len),
    ensures
        gather_fwd(aut, vf_or(a, b), j, len) =~= bf_or(
            gather_fwd(aut, a, j, len),
            gather_fwd(aut, b, j, len),
        ),
{
    assert forall|x: int| 0 <= x < len implies gather_fwd(aut, vf_or(a, b), j, len)[x] == bf_or(
        gather_fwd(aut, a, j, len),
        gather_fwd(aut, b, j, len),
    )[x] by {
        if gather_fwd(aut, vf_or(a, b), j, len)[x] {
            let (i, e) = choose|i: int, e: int|
                0 <= i < aut.ns() && 0 <= e < aut.forward@[i]@.len() && (
                #[trigger] aut.forward@[i]@[e]).0 == j && bf_mem(vf_or(a, b)[i], x) && bf_mem(
                    aut.forward@[i]@[e].1@,
                    x,
                );
            assert(bf_mem(a[i], x) || bf_mem(b[i], x));
        }
        if gather_fwd(aut, a, j, len)[x] {
            let (i, e) = choose|i: int, e: int|
                0 <= i < aut.ns() && 0 <= e < aut.forward@[i]@.len() && (
                #[trigger] aut.forward@[i]@[e]).0 == j && bf_mem(a[i], x) && bf_mem(
                    aut.forward@[i]@[e].1@,
                    x,
                );
            assert(bf_mem(vf_or(a, b)[i], x));
        }
        if gather_fwd(aut, b, j, len)[x] {
            let (i, e) = choose|i: int, e: int|
                0 <= i < aut.ns() && 0 <= e < aut.forward@[i]@.len() && (
                #[trigger] aut.forward@[i]@[e]).0 == j && bf_mem(b[i], x) && bf_mem(
                    aut.forward@[i]@[e].1@,
                    x,
                );
            assert(bf_mem(vf_or(a, b)[i], x));
        }
    }
}

/// A forward round distributes over union.
pub proof fn lemma_step_post_or(
    aut: BuchiAutomata,
    pairs: Seq<(u64, u64)>,
    a: Seq<Seq<bool>>,
    b: Seq<Seq<bool>>,
    len: nat,
)
    requires
        a.len() == b.len(),
        a.len() == aut.ns(),
        vf_wf(a, len),
        vf_wf(b, len),
    ensures
        step_post(aut, pairs, vf_or(a, b), len) =~~= vf_or(
            step_post(aut, pairs, a, len),
            step_post(aut, pairs, b, len),
        ),
{
    assert forall|j: int| 0 <= j < aut.ns() implies step_post(aut, pairs, vf_or(a, b), len)[j]
        =~= vf_or(step_post(aut, pairs, a, len), step_post(aut, pairs, b, len))[j] by {
        lemma_gather_fwd_or(aut, a, b, j, len);
        lemma_img_or(pairs, true, gather_fwd(aut, a, j, len), gather_fwd(aut, b, j, len), len);
    }
}

pub proof fn lemma_step_pre_monotone(
    aut: BuchiAutomata,
    pairs: Seq<(u64, u64)>,
    c: Option<Seq<Seq<bool>>>,
    a: Seq<Seq<bool>>,
    b: Seq<Seq<bool>>,
    len: nat,
)
    requires
        vf_sub(a, b),
        a.len() == aut.ns(),
    ensures
        vf_sub(step_pre(aut, pairs, c, a, len), step_pre(aut, pairs, c, b, len)),
{
    assert forall|j: int| 0 <= j < aut.ns() implies bf_sub(
        #[trigger] step_pre(aut, pairs, c, a, len)[j],
        step_pre(aut, pairs, c, b, len)[j],
    ) by {
        assert forall|x: int|
            0 <= x < len && #[trigger] step_pre_at(aut, pairs, c, a, j, len)[x] implies step_pre_at(
            aut,
            pairs,
            c,
            b,
            j,
            len,
        )[x] by {
            let (i, e) = choose|i: int, e: int|
                0 <= i < aut.ns() && 0 <= e < aut.backward@[i]@.len() && (
                #[trigger] aut.backward@[i]@[e]).0 == j && bf_mem(
                    pre_img(pairs, a[i], len),
                    x,
                ) && bf_mem(aut.backward@[i]@[e].1@, x);
            if 0 <= i < a.len() {
                assert(bf_sub(a[i], b[i]));
                lemma_img_monotone(pairs, false, a[i], b[i], len);
                assert(bf_mem(pre_img(pairs, b[i], len), x));
            }
        }
    }
}

/// A backward round distributes over union.
pub proof fn lemma_step_pre_or(
    aut: BuchiAutomata,
    pairs: Seq<(u64, u64)>,
    c: Option<Seq<Seq<bool>>>,
    a: Seq<Seq<bool>>,
    b: Seq<Seq<bool>>,
    len: nat,
)
    requires
        a.len() == b.len(),
        a.len() == aut.ns(),
        vf_wf(a, len),
        vf_wf(b, len),
    ensures
        step_pre(aut, pairs, c, vf_or(a, b), len) =~~= vf_or(
            step_pre(aut, pairs, c, a, len),
            step_pre(aut, pairs, c, b, len),
        ),
{
    assert forall|j: int| 0 <= j < aut.ns() implies step_pre(aut, pairs, c, vf_or(a, b), len)[j]
        =~= vf_or(step_pre(aut, pairs, c, a, len), step_pre(aut, pairs, c, b, len))[j] by {
        assert forall|x: int| 0 <= x < len implies step_pre_at(aut, pairs, c, vf_or(a, b), j, len)[x]
            == bf_or(
            step_pre_at(aut, pairs, c, a, j, len),
            step_pre_at(aut, pairs, c, b, j, len),
        )[x] by {
            if step_pre_at(aut, pairs, c, vf_or(a, b), j, len)[x] {
                let (i, e) = choose|i: int, e: int|
                    0 <= i < aut.ns() && 0 <= e < aut.backward@[i]@.len() && (
                    #[trigger] aut.backward@[i]@[e]).0 == j && bf_mem(
                        pre_img(pairs, vf_or(a, b)[i], len),
                        x,
                    ) && bf_mem(aut.backward@[i]@[e].1@, x);
                lemma_img_or(pairs, false, a[i], b[i], len);
                assert(bf_mem(pre_img(pairs, a[i], len), x) || bf_mem(
                    pre_img(pairs, b[i], len),
                    x,
                ));
            }
            if step_pre_at(aut, pairs, c, a, j, len)[x] {
                let (i, e) = choose|i: int, e: int|
                    0 <= i < aut.ns() && 0 <= e < aut.backward@[i]@.len() && (
                    #[trigger] aut.backward@[i]@[e]).0 == j && bf_mem(
                        pre_img(pairs, a[i], len),
                        x,
                    ) && bf_mem(aut.backward@[i]@[e].1@, x);
                lemma_img_monotone(pairs, false, a[i], vf_or(a, b)[i], len);
                assert(bf_mem(pre_img(pairs, vf_or(a, b)[i], len), x));
            }
            if step_pre_at(aut, pairs, c, b, j, len)[x] {
                let (i, e) = choose|i: int, e: int|
                    0 <= i < aut.ns() && 0 <= e < aut.backward@[i]@.len() && (
                    #[trigger] aut.backward@[i]@[e]).0 == j && bf_mem(
                        pre_img(pairs, b[i], len),
                        x,
                    ) && bf_mem(aut.backward@[i]@[e].1@, x);
                lemma_img_monotone(pairs, false, b[i], vf_or(a, b)[i], len);
                assert(bf_mem(pre_img(pairs, vf_or(a, b)[i], len), x));
            }
        }
    }
}

impl PartitionedSmc {
    /// The number of entries of one state-set table.
    pub open spec fn len(self) -> nat {
        pow2(self.manager.num_vars as nat)
    }

    pub open spec fn ns(self) -> nat {
        self.automata.ns()
    }

    pub open spec fn inv(self) -> bool {
        &&& self.manager.inv()
        &&& self.fsm.inv()
        &&& self.fsm.mgr == self.manager.id
        &&& self.fsm.num_vars == self.manager.num_vars
        &&& self.automata.inv()
        &&& self.automata.owned_by(self.manager)
    }

    /// A vector of per-slot state sets this engine may work on.
    pub open spec fn vec_ok(self, v: Seq<Bdd>) -> bool {
        v.len() == self.ns() && forall|i: int|
            0 <= i < v.len() ==> ((#[trigger] v[i]).inv() && v[i].mgr == self.manager.id
                && v[i].num_vars == self.manager.num_vars)
    }

    pub fn new(
        manager: Manager,
        fsm: TransitionSystem,
        automata: BuchiAutomata,
        args: Args,
    ) -> (r: Self)
        requires
            manager.inv(),
            fsm.inv(),
            fsm.mgr == manager.id,
            fsm.num_vars == manager.num_vars,
            automata.inv(),
            automata.owned_by(manager),
        ensures
            r.inv(),
            r.manager == manager,
            r.fsm == fsm,
            r.automata == automata,
            r.args == args,
    {
        PartitionedSmc { manager, fsm, automata, args, statistic: Statistic::default() }
    }

    /// One all-empty state set per automaton state.
    pub fn false_vector(&self) -> (r: Vec<Bdd>)
        requires
            self.inv(),
        ensures
            self.vec_ok(r@),
            views(r@) == vf_false(self.ns(), self.len()),
    {
        let n = self.automata.num_state();
        let mut r: Vec<Bdd> = Vec::new();
        let mut i: usize = 0;
        while i < n
            invariant
                0 <= i <= n,
                self.inv(),
                n == self.ns(),
                r@.len() == i,
                forall|k: int|
                    0 <= k < i ==> ((#[trigger] r@[k]).inv() && r@[k].mgr == self.manager.id
                        && r@[k].num_vars == self.manager.num_vars && r@[k]@ == bf_const(
                        self.len(),
                        false,
                    )),
            decreases n - i,
        {
            r.push(self.manager.constant(false));
            i += 1;
        }
        proof {
            assert(views(r@) =~~= vf_false(self.ns(), self.len()));
        }
        r
    }

    /// A copy of a vector of state sets; the functions are preserved.
    pub fn copy_vector(&self, v: &Vec<Bdd>) -> (r: Vec<Bdd>)
        requires
            self.inv(),
            self.vec_ok(v@),
        ensures
            self.vec_ok(r@),
            views(r@) == views(v@),
    {
        let mut r: Vec<Bdd> = Vec::new();
        let mut i: usize = 0;
        while i < v.len()
            invariant
                0 <= i <= v@.len(),
                self.inv(),
                self.vec_ok(v@),
                r@.len() == i,
                forall|k: int|
                    0 <= k < i ==> ((#[trigger] r@[k]).inv() && r@[k].mgr == self.manager.id
                        && r@[k].num_vars == self.manager.num_vars && r@[k]@ == v@[k]@),
            decreases v@.len() - i,
        {
            r.push(v[i].clone());
            i += 1;
        }
        proof {
            assert(views(r@) =~~= views(v@));
        }
        r
    }

    /// The slot-wise union of two vectors.
    pub fn or_vectors(&self, a: &Vec<Bdd>, b: &Vec<Bdd>) -> (r: Vec<Bdd>)
        requires
            self.inv(),
            self.vec_ok(a@),
            self.vec_ok(b@),
        ensures
            self.vec_ok(r@),
            views(r@) == vf_or(views(a@), views(b@)),
    {
        let n = a.len();
        let mut r: Vec<Bdd> = Vec::new();
        let mut j: usize = 0;
        while j < n
            invariant
                0 <= j <= n,
                self.inv(),
                self.vec_ok(a@),
                self.vec_ok(b@),
                n == a@.len(),
                r@.len() == j,
                forall|k: int|
                    0 <= k < j ==> ((#[trigger] r@[k]).inv() && r@[k].mgr == self.manager.id
                        && r@[k].num_vars == self.manager.num_vars && r@[k]@ == bf_or(
                        views(a@)[k],
                        views(b@)[k],
                    )),
            decreases n - j,
        {
            let v = a[j].or(&b[j]);
            r.push(v);
            j += 1;
        }
        proof {
            assert(views(r@) =~~= vf_or(views(a@), views(b@)));
        }
        r
    }

    /// Whether every slot is empty: the stop test of each fixpoint.
    pub fn all_false(&self, v: &Vec<Bdd>) -> (r: bool)
        requires
            self.inv(),
            self.vec_ok(v@),
        ensures
            r == vf_empty(views(v@)),
    {
        let mut j: usize = 0;
        while j < v.len()
            invariant
                0 <= j <= v@.len(),
                self.inv(),
                self.vec_ok(v@),
                forall|k: int, x: int|
                    0 <= k < j && 0 <= x < views(v@)[k].len() ==> !(#[trigger] views(v@)[k][x]),
            decreases v@.len() - j,
        {
            if !v[j].is_constant(false) {
                proof {
                    let x = choose|x: int| 0 <= x < v@[j as int]@.len() && v@[j as int]@[x];
                    assert(views(v@)[j as int][x]);
                }
                return false;
            }
            j += 1;
        }
        true
    }

    /// Whether two vectors hold slot-for-slot the same functions.
    pub fn vectors_equal(&self, a: &Vec<Bdd>, b: &Vec<Bdd>) -> (r: bool)
        requires
            self.inv(),
            self.vec_ok(a@),
            self.vec_ok(b@),
        ensures
            r == (views(a@) == views(b@)),
    {
        let mut j: usize = 0;
        while j < a.len()
            invariant
                0 <= j <= a@.len(),
                self.inv(),
                self.vec_ok(a@),
                self.vec_ok(b@),
                forall|k: int| 0 <= k < j ==> (#[trigger] views(a@)[k]) == views(b@)[k],
            decreases a@.len() - j,
        {
            if !(a[j] == b[j]) {
                proof {
                    assert(a@[j as int]@ != b@[j as int]@);
                    assert(views(a@)[j as int] != views(b@)[j as int]);
                }
                return false;
            }
            j += 1;
        }
        proof {
            assert(views(a@) =~= views(b@));
        }
        true
    }
}

} // verus!
