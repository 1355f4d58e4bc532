use vstd::prelude::*;

verus! {

use crate::bdd::{Bdd, bf_sub, bf_and, bf_or, bf_const, views, vf_sub, vf_or, vf_and, vf_wf,
    sum_count,
    lemma_sum_count_lt, lemma_sum_count_bound, lemma_vf_sub_trans};
use crate::automata::BuchiAutomata;
use crate::partitioned::{PartitionedSmc, pre_fp, is_pre_lfp, step_pre, lemma_step_pre_monotone,
    post_fp, is_post_lfp};
use crate::reachable::lemma_vec_ok_wf;

/// Whether `j` is an accepting state of the automaton.
pub open spec fn is_accepting(aut: BuchiAutomata, j: int) -> bool {
    exists|k: int| 0 <= k < aut.accepting_states@.len() && aut.accepting_states@[k] == j
}

/// The seed of the fair-cycle fixpoint: the reachable states at accepting
/// slots, nothing elsewhere.
pub open spec fn fair_seed(aut: BuchiAutomata, ir: Seq<Seq<bool>>, len: nat) -> Seq<Seq<bool>> {
    Seq::new(
        aut.ns(),
        |j: int|
            if is_accepting(aut, j) {
                ir[j]
            } else {
                bf_const(len, false)
            },
    )
}

/// A vector `z` is fair-viable when it sits inside the seed and inside every
/// vector closed under the backward round for `z` itself: each of its states
/// reaches `z` again in one or more rounds, within the constraint.
pub open spec fn fair_viable(
    aut: BuchiAutomata,
    pairs: Seq<(u64, u64)>,
    ir: Seq<Seq<bool>>,
    len: nat,
    z: Seq<Seq<bool>>,
) -> bool {
    &&& z.len() == aut.ns()
    &&& vf_wf(z, len)
    &&& vf_sub(z, fair_seed(aut, ir, len))
    &&& forall|b: Seq<Seq<bool>>|
        #[trigger] pre_fp(aut, pairs, Option::Some(ir), z, b, len) ==> vf_sub(z, b)
}

/// `f` is the greatest fair-viable vector: the exact contract of the
/// fair-cycle fixpoint.
pub open spec fn is_fair_gfp(
    aut: BuchiAutomata,
    pairs: Seq<(u64, u64)>,
    ir: Seq<Seq<bool>>,
    len: nat,
    f: Seq<Seq<bool>>,
) -> bool {
    fair_viable(aut, pairs, ir, len, f) && forall|z: Seq<Seq<bool>>|
        #[trigger] fair_viable(aut, pairs, ir, len, z) ==> vf_sub(z, f)
}

impl PartitionedSmc {
    /// The seed vector: reachable states at accepting slots.
    fn fair_start(&self, init_reach: &Vec<Bdd>) -> (r: Vec<Bdd>)
        requires
            self.inv(),
            self.vec_ok(init_reach@),
        ensures
            self.vec_ok(r@),
            views(r@) == fair_seed(self.automata, views(init_reach@), self.len()),
    {
        let mut fair = self.false_vector();
        let ghost aut = self.automata;
        let ghost ir = views(init_reach@);
        let ghost len = self.len();
        proof {
            assert forall|j: int| 0 <= j < aut.ns() implies #[trigger] views(fair@)[j] == (
            if (exists|k: int|
                0 <= k < 0 && aut.accepting_states@[k] == j) {
                ir[j]
            } else {
                bf_const(len, false)
            }) by {}
        }
        let n = self.automata.accepting_states.len();
        let mut k: usize = 0;
        while k < n
            invariant
                0 <= k <= n,
                self.inv(),
                self.vec_ok(init_reach@),
                n == self.automata.accepting_states@.len(),
                aut == self.automata,
                ir == views(init_reach@),
                len == self.len(),
                self.vec_ok(fair@),
                forall|j: int|
                    0 <= j < aut.ns() ==> #[trigger] views(fair@)[j] == (if (exists|k2: int|
                        0 <= k2 < k && aut.accepting_states@[k2] == j) {
                        ir[j]
                    } else {
                        bf_const(len, false)
                    }),
            decreases n - k,
        {
            let a = self.automata.accepting_states[k];
            let ghost fair0 = fair@;
            let cur = init_reach[a].clone();
            fair[a] = cur;
            proof {
                assert forall|j: int| 0 <= j < aut.ns() implies #[trigger] views(fair@)[j] == (
                if (exists|k2: int|
                    0 <= k2 < k + 1 && aut.accepting_states@[k2] == j) {
                    ir[j]
                } else {
                    bf_const(len, false)
                }) by {
                    if j == a {
                        assert(aut.accepting_states@[k as int] == j);
                        assert(views(fair@)[j] == ir[j]);
                    } else {
                        assert(views(fair@)[j] == views(fair0)[j]);
                        assert forall|k2: int|
                            0 <= k2 < k + 1 && aut.accepting_states@[k2] == j implies 0 <= k2 < k by {}
                    }
                }
            }
            k += 1;
        }
        proof {
            assert forall|j: int| 0 <= j < aut.ns() implies #[trigger] views(fair@)[j] == fair_seed(
                aut,
                ir,
                len,
            )[j] by {
                if is_accepting(aut, j) {
                    let k2 = choose|k2: int|
                        0 <= k2 < aut.accepting_states@.len() && aut.accepting_states@[k2] == j;
                    assert(views(fair@)[j] == ir[j]);
                }
            }
            assert(views(fair@) =~~= fair_seed(aut, ir, len));
        }
        fair
    }

    /// One fair-cycle round: intersect the candidate fair set with the states
    /// that reach it again backward, inside the reachable constraint; the
    /// backward sets come from the worker network when the run is configured
    /// parallel, else from the sequential fixpoint — both meet the same
    /// contract.  The result never grows: each round shrinks the candidate
    /// or leaves it unchanged.
    pub fn fair_states_step(&mut self, fair: &Vec<Bdd>, init_reach: &Vec<Bdd>) -> (r: Vec<Bdd>)
        requires
            old(self).inv(),
            old(self).vec_ok(fair@),
            old(self).vec_ok(init_reach@),
        ensures
            final(self).inv(),
            final(self).manager == old(self).manager,
            final(self).fsm == old(self).fsm,
            final(self).automata == old(self).automata,
            final(self).args == old(self).args,
            final(self).vec_ok(r@),
            vf_sub(views(r@), views(fair@)),
            exists|b: Seq<Seq<bool>>|
                #[trigger] is_pre_lfp(
                    old(self).automata,
                    old(self).fsm.pairs@,
                    Option::Some(views(init_reach@)),
                    views(fair@),
                    b,
                    old(self).len(),
                ) && views(r@) == vf_and(views(fair@), b),
    {
        let backward = if self.args.parallel {
            self.parallel_reachable_state(fair, false, Option::Some(init_reach))
        } else {
            self.pre_reachable(fair, Option::Some(init_reach))
        };
        let n = self.automata.num_state();
        let mut r: Vec<Bdd> = Vec::new();
        let mut j: usize = 0;
        while j < n
            invariant
                0 <= j <= n,
                self.inv(),
                self.vec_ok(fair@),
                self.vec_ok(backward@),
                n == self.ns(),
                r@.len() == j,
                forall|k: int|
                    0 <= k < j ==> ((#[trigger] r@[k]).inv() && r@[k].mgr == self.manager.id
                        && r@[k].num_vars == self.manager.num_vars && r@[k]@ == bf_and(
                        views(fair@)[k],
                        views(backward@)[k],
                    )),
            decreases n - j,
        {
            let nf = fair[j].and(&backward[j]);
            r.push(nf);
            j += 1;
        }
        proof {
            assert(views(r@) =~~= vf_and(views(fair@), views(backward@)));
            lemma_vec_ok_wf(*self, fair@);
            lemma_vec_ok_wf(*self, r@);
            assert forall|k: int| 0 <= k < n implies bf_sub(
                #[trigger] views(r@)[k],
                views(fair@)[k],
            ) by {
                assert(views(r@)[k] == bf_and(views(fair@)[k], views(backward@)[k]));
            }
        }
        r
    }

    /// The fair-cycle fixpoint: the greatest vector of reachable accepting
    /// states each of which reaches the vector again in one or more rounds.
    /// It shrinks monotonically from the seed and stops at the first
    /// unchanged round.
    pub fn fair_states(&mut self, init_reach: &Vec<Bdd>) -> (r: Vec<Bdd>)
        requires
            old(self).inv(),
            old(self).vec_ok(init_reach@),
        ensures
            final(self).inv(),
            final(self).manager == old(self).manager,
            final(self).fsm == old(self).fsm,
            final(self).automata == old(self).automata,
            final(self).args == old(self).args,
            final(self).vec_ok(r@),
            is_fair_gfp(
                old(self).automata,
                old(self).fsm.pairs@,
                views(init_reach@),
                old(self).len(),
                views(r@),
            ),
    {
        let ghost aut = self.automata;
        let ghost pairs = self.fsm.pairs@;
        let ghost len = self.len();
        let ghost ir = views(init_reach@);
        let mut fair = self.fair_start(init_reach);
        let mut rounds: u64 = 0;
        proof {
            lemma_vec_ok_wf(*self, fair@);
            assert forall|z: Seq<Seq<bool>>|
                #[trigger] fair_viable(aut, pairs, ir, len, z) implies vf_sub(z, views(fair@)) by {}
        }
        loop
            invariant
                self.inv(),
                self.manager == old(self).manager,
                self.fsm == old(self).fsm,
                self.automata == old(self).automata,
                self.args == old(self).args,
                aut == self.automata,
                pairs == self.fsm.pairs@,
                len == self.len(),
                ir == views(init_reach@),
                self.vec_ok(init_reach@),
                self.vec_ok(fair@),
                vf_sub(views(fair@), fair_seed(aut, ir, len)),
                forall|z: Seq<Seq<bool>>|
                    #[trigger] fair_viable(aut, pairs, ir, len, z) ==> vf_sub(z, views(fair@)),
            ensures
                self.inv(),
                self.manager == old(self).manager,
                self.fsm == old(self).fsm,
                self.automata == old(self).automata,
                self.args == old(self).args,
                self.vec_ok(fair@),
                is_fair_gfp(aut, pairs, ir, len, views(fair@)),
            decreases sum_count(views(fair@)),
        {
            let new_fair = self.fair_states_step(&fair, init_reach);
            rounds = crate::command::bump(rounds);
            let ghost b = choose|b: Seq<Seq<bool>>|
                #[trigger] is_pre_lfp(aut, pairs, Option::Some(ir), views(fair@), b, len) && views(
                    new_fair@,
                ) == vf_and(views(fair@), b);
            if self.vectors_equal(&fair, &new_fair) {
                proof {
                    lemma_vec_ok_wf(*self, fair@);
                    // the candidate sits inside its own backward closure
                    assert forall|j: int| 0 <= j < aut.ns() implies bf_sub(
                        #[trigger] views(fair@)[j],
                        b[j],
                    ) by {
                        assert(views(fair@)[j] == vf_and(views(fair@), b)[j]);
                        assert(views(fair@)[j] == bf_and(views(fair@)[j], b[j]));
                        assert forall|x: int|
                            0 <= x < views(fair@)[j].len() && #[trigger] views(fair@)[j][x] implies b[j][x] by {
                            assert(bf_and(views(fair@)[j], b[j])[x]);
                        }
                    }
                    // hence it is viable: any vector closed for it contains
                    // the closure, which contains it
                    assert forall|b2: Seq<Seq<bool>>|
                        #[trigger] pre_fp(aut, pairs, Option::Some(ir), views(fair@), b2, len) implies vf_sub(
                        views(fair@),
                        b2,
                    ) by {
                        assert(vf_sub(b, b2));
                        lemma_vf_sub_trans(views(fair@), b, b2);
                    }
                    assert(fair_viable(aut, pairs, ir, len, views(fair@)));
                }
                break;
            }
            proof {
                lemma_vec_ok_wf(*self, fair@);
                lemma_vec_ok_wf(*self, new_fair@);
                let f = views(fair@);
                let nf = views(new_fair@);
                // every viable vector survives the round
                assert forall|z: Seq<Seq<bool>>|
                    #[trigger] fair_viable(aut, pairs, ir, len, z) implies vf_sub(z, nf) by {
                    assert(vf_sub(z, f));
                    // the closure of `fair` is closed for `z` as well
                    assert forall|j: int| 0 <= j < aut.ns() implies bf_sub(
                        #[trigger] vf_or(z, b)[j],
                        vf_or(f, b)[j],
                    ) by {
                        assert(bf_sub(z[j], f[j]));
                        assert(vf_or(z, b)[j].len() == vf_or(f, b)[j].len());
                        assert forall|x: int|
                            0 <= x < vf_or(z, b)[j].len() && #[trigger] vf_or(z, b)[j][x] implies vf_or(
                            f,
                            b,
                        )[j][x] by {
                            assert(z[j][x] || b[j][x]);
                        }
                    }
                    lemma_step_pre_monotone(
                        aut,
                        pairs,
                        Option::Some(ir),
                        vf_or(z, b),
                        vf_or(f, b),
                        len,
                    );
                    lemma_vf_sub_trans(
                        step_pre(aut, pairs, Option::Some(ir), vf_or(z, b), len),
                        step_pre(aut, pairs, Option::Some(ir), vf_or(f, b), len),
                        b,
                    );
                    assert(pre_fp(aut, pairs, Option::Some(ir), z, b, len));
                    assert(vf_sub(z, b));
                    assert forall|j: int| 0 <= j < aut.ns() implies bf_sub(#[trigger] z[j], nf[j]) by {
                        assert(bf_sub(z[j], f[j]));
                        assert(bf_sub(z[j], b[j]));
                        assert(nf[j] == bf_and(f[j], b[j]));
                        assert forall|x: int|
                            0 <= x < z[j].len() && #[trigger] z[j][x] implies nf[j][x] by {
                            assert(f[j][x] && b[j][x]);
                        }
                    }
                }
                // the seed bound survives
                lemma_vf_sub_trans(nf, f, fair_seed(aut, ir, len));
                // the measure drops: the vectors differ somewhere
                assert(views(fair@) != views(new_fair@));
                assert(f.len() == nf.len());
                assert(exists|j: int| 0 <= j < f.len() && f[j] != nf[j]) by {
                    if forall|j: int| 0 <= j < f.len() ==> f[j] == nf[j] {
                        assert(f =~= nf);
                        assert(false);
                    }
                }
                let j = choose|j: int| 0 <= j < f.len() && f[j] != nf[j];
                assert(f[j].len() == nf[j].len());
                assert(exists|x: int| 0 <= x < f[j].len() && f[j][x] != nf[j][x]) by {
                    if forall|x: int| 0 <= x < f[j].len() ==> f[j][x] == nf[j][x] {
                        assert(f[j] =~= nf[j]);
                        assert(false);
                    }
                }
                let x = choose|x: int| 0 <= x < f[j].len() && f[j][x] != nf[j][x];
                assert(bf_sub(nf[j], f[j]));
                assert(!nf[j][x] && f[j][x]);
                lemma_sum_count_lt(nf, f, j, x);
            }
            fair = new_fair;
        }
        self.statistic.fair_cycle_rounds = rounds;
        fair
    }
}


/// Whether `j` is an initial state of the automaton.
pub open spec fn is_init(aut: BuchiAutomata, j: int) -> bool {
    exists|k: int| 0 <= k < aut.init_states@.len() && aut.init_states@[k] == j
}

/// The start vector of the forward phase: the system's initial predicate at
/// the automaton's initial slots, nothing elsewhere.
pub open spec fn init_vec(aut: BuchiAutomata, init: Seq<bool>, len: nat) -> Seq<Seq<bool>> {
    Seq::new(
        aut.ns(),
        |j: int|
            if is_init(aut, j) {
                init
            } else {
                bf_const(len, false)
            },
    )
}

/// Every accepting slot of `v` is empty.
pub open spec fn accepting_empty(aut: BuchiAutomata, v: Seq<Seq<bool>>) -> bool {
    forall|k: int, x: int|
        0 <= k < aut.accepting_states@.len() && 0 <= x < v[aut.accepting_states@[k] as int].len()
            ==> !(#[trigger] v[aut.accepting_states@[k] as int][x])
}

/// The final outcome: the property holds exactly when reachability and
/// fair sets miss each other at every accepting state.
pub open spec fn outcome_ok(aut: BuchiAutomata, r: Seq<Seq<bool>>, f: Seq<Seq<bool>>) -> bool {
    accepting_empty(aut, vf_and(r, f))
}

/// The least fixpoint of the forward round is unique: two reachability
/// results over the same inputs are equal.
pub proof fn lemma_post_lfp_unique(
    aut: BuchiAutomata,
    pairs: Seq<(u64, u64)>,
    ff: Seq<Seq<bool>>,
    len: nat,
    r1: Seq<Seq<bool>>,
    r2: Seq<Seq<bool>>,
)
    requires
        is_post_lfp(aut, pairs, ff, r1, len),
        is_post_lfp(aut, pairs, ff, r2, len),
    ensures
        r1 == r2,
{
    assert(post_fp(aut, pairs, ff, r2, len));
    assert(vf_sub(r1, r2));
    assert(post_fp(aut, pairs, ff, r1, len));
    assert(vf_sub(r2, r1));
    assert forall|j: int| 0 <= j < r1.len() implies #[trigger] r1[j] == r2[j] by {
        assert(bf_sub(r1[j], r2[j]));
        assert(bf_sub(r2[j], r1[j]));
        assert forall|x: int| 0 <= x < r1[j].len() implies r1[j][x] == r2[j][x] by {
            if r1[j][x] {
                assert(r2[j][x]);
            }
            if r2[j][x] {
                assert(r1[j][x]);
            }
        }
        assert(r1[j] =~= r2[j]);
    }
    assert(r1 =~= r2);
}

/// The greatest fair-viable vector is unique as well.
pub proof fn lemma_fair_gfp_unique(
    aut: BuchiAutomata,
    pairs: Seq<(u64, u64)>,
    ir: Seq<Seq<bool>>,
    len: nat,
    f1: Seq<Seq<bool>>,
    f2: Seq<Seq<bool>>,
)
    requires
        is_fair_gfp(aut, pairs, ir, len, f1),
        is_fair_gfp(aut, pairs, ir, len, f2),
    ensures
        f1 == f2,
{
    assert(fair_viable(aut, pairs, ir, len, f2));
    assert(vf_sub(f2, f1));
    assert(fair_viable(aut, pairs, ir, len, f1));
    assert(vf_sub(f1, f2));
    assert forall|j: int| 0 <= j < f1.len() implies #[trigger] f1[j] == f2[j] by {
        assert(bf_sub(f1[j], f2[j]));
        assert(bf_sub(f2[j], f1[j]));
        assert forall|x: int| 0 <= x < f1[j].len() implies f1[j][x] == f2[j][x] by {
            if f1[j][x] {
                assert(f2[j][x]);
            }
            if f2[j][x] {
                assert(f1[j][x]);
            }
        }
        assert(f1[j] =~= f2[j]);
    }
    assert(f1 =~= f2);
}

/// Strategy agreement: two answers both computed from a reachability least
/// fixpoint and a fair-cycle greatest fixpoint over the same system,
/// automaton and start vector are equal — whichever engine produced each,
/// and in the exposed encoding, `true` for a violation found.
pub proof fn lemma_outcome_agreement(
    aut: BuchiAutomata,
    pairs: Seq<(u64, u64)>,
    iv: Seq<Seq<bool>>,
    len: nat,
    r1: bool,
    r2: bool,
)
    requires
        exists|rv: Seq<Seq<bool>>, fv: Seq<Seq<bool>>|
            is_post_lfp(aut, pairs, iv, rv, len) && #[trigger] is_fair_gfp(aut, pairs, rv, len, fv)
                && r1 == !outcome_ok(aut, rv, fv),
        exists|rv: Seq<Seq<bool>>, fv: Seq<Seq<bool>>|
            is_post_lfp(aut, pairs, iv, rv, len) && #[trigger] is_fair_gfp(aut, pairs, rv, len, fv)
                && r2 == !outcome_ok(aut, rv, fv),
    ensures
        r1 == r2,
{
    let (rv1, fv1) = choose|rv: Seq<Seq<bool>>, fv: Seq<Seq<bool>>|
        is_post_lfp(aut, pairs, iv, rv, len) && #[trigger] is_fair_gfp(aut, pairs, rv, len, fv)
            && r1 == !outcome_ok(aut, rv, fv);
    let (rv2, fv2) = choose|rv: Seq<Seq<bool>>, fv: Seq<Seq<bool>>|
        is_post_lfp(aut, pairs, iv, rv, len) && #[trigger] is_fair_gfp(aut, pairs, rv, len, fv)
            && r2 == !outcome_ok(aut, rv, fv);
    lemma_post_lfp_unique(aut, pairs, iv, len, rv1, rv2);
    lemma_fair_gfp_unique(aut, pairs, rv1, len, fv1, fv2);
}

impl PartitionedSmc {
    /// The start vector: the initial predicate at the initial slots.
    pub fn init_vector(&self) -> (r: Vec<Bdd>)
        requires
            self.inv(),
        ensures
            self.vec_ok(r@),
            views(r@) == init_vec(self.automata, self.fsm.init@, self.len()),
    {
        let mut v = self.false_vector();
        let ghost aut = self.automata;
        let ghost len = self.len();
        let n = self.automata.init_states.len();
        let mut k: usize = 0;
        while k < n
            invariant
                0 <= k <= n,
                self.inv(),
                n == self.automata.init_states@.len(),
                aut == self.automata,
                len == self.len(),
                self.vec_ok(v@),
                forall|j: int|
                    0 <= j < aut.ns() ==> #[trigger] views(v@)[j] == (if (exists|k2: int|
                        0 <= k2 < k && aut.init_states@[k2] == j) {
                        self.fsm.init@
                    } else {
                        bf_const(len, false)
                    }),
            decreases n - k,
        {
            let a = self.automata.init_states[k];
            let ghost v0 = v@;
            let cur = v[a].or(&self.fsm.init);
            v[a] = cur;
            proof {
                assert forall|j: int| 0 <= j < aut.ns() implies #[trigger] views(v@)[j] == (
                if (exists|k2: int|
                    0 <= k2 < k + 1 && aut.init_states@[k2] == j) {
                    self.fsm.init@
                } else {
                    bf_const(len, false)
                }) by {
                    if j == a {
                        assert(aut.init_states@[k as int] == j);
                        assert(views(v@)[j] == bf_or(views(v0)[j], self.fsm.init@));
                        assert(views(v@)[j] =~= self.fsm.init@);
                    } else {
                        assert(views(v@)[j] == views(v0)[j]);
                        assert forall|k2: int|
                            0 <= k2 < k + 1 && aut.init_states@[k2] == j implies 0 <= k2 < k by {}
                    }
                }
            }
            k += 1;
        }
        proof {
            assert forall|j: int| 0 <= j < aut.ns() implies #[trigger] views(v@)[j] == init_vec(
                aut,
                self.fsm.init@,
                len,
            )[j] by {
                if is_init(aut, j) {
                    let k2 = choose|k2: int|
                        0 <= k2 < aut.init_states@.len() && aut.init_states@[k2] == j;
                }
            }
            assert(views(v@) =~~= init_vec(aut, self.fsm.init@, len));
        }
        v
    }

    /// The emptiness test at the accepting states: `true` when every
    /// accepting slot of `reach ∧ fair` is empty, i.e. the property holds.
    pub fn accepting_outcome(&self, reach: &Vec<Bdd>, fair: &Vec<Bdd>) -> (r: bool)
        requires
            self.inv(),
            self.vec_ok(reach@),
            self.vec_ok(fair@),
        ensures
            r == outcome_ok(self.automata, views(reach@), views(fair@)),
    {
        let ghost aut = self.automata;
        let n = self.automata.accepting_states.len();
        let mut k: usize = 0;
        while k < n
            invariant
                0 <= k <= n,
                self.inv(),
                self.vec_ok(reach@),
                self.vec_ok(fair@),
                n == aut.accepting_states@.len(),
                aut == self.automata,
                forall|k2: int, x: int|
                    0 <= k2 < k && 0 <= x < vf_and(views(reach@), views(fair@))[aut.accepting_states@[k2] as int].len()
                        ==> !(#[trigger] vf_and(views(reach@), views(fair@))[aut.accepting_states@[k2] as int][x]),
            decreases n - k,
        {
            let a = self.automata.accepting_states[k];
            let both = reach[a].and(&fair[a]);
            if !both.is_constant(false) {
                proof {
                    let x = choose|x: int| 0 <= x < both@.len() && both@[x];
                    assert(vf_and(views(reach@), views(fair@))[a as int][x]);
                    assert(!outcome_ok(aut, views(reach@), views(fair@)));
                }
                return false;
            }
            proof {
                assert forall|x: int|
                    0 <= x < vf_and(views(reach@), views(fair@))[a as int].len() implies !(vf_and(
                    views(reach@),
                    views(fair@),
                )[a as int][x]) by {
                    assert(!both@[x]);
                }
            }
            k += 1;
        }
        true
    }

    /// The liveness check: compute the forward-reachable sets from the
    /// initial vector, shrink them to the fair-cycle sets, and report `true`
    /// exactly when a violation was found — some accepting state's reach and
    /// fair sets meet — and `false` when the property holds.  The answer is a
    /// function of the two fixpoints alone, so any two strategies that meet
    /// the same fixpoint contracts return the same answer.
    pub fn check_liveness(&mut self) -> (r: bool)
        requires
            old(self).inv(),
        ensures
            final(self).inv(),
            final(self).manager == old(self).manager,
            final(self).fsm == old(self).fsm,
            final(self).automata == old(self).automata,
            final(self).args == old(self).args,
            exists|rv: Seq<Seq<bool>>, fv: Seq<Seq<bool>>|
                is_post_lfp(
                    old(self).automata,
                    old(self).fsm.pairs@,
                    init_vec(old(self).automata, old(self).fsm.init@, old(self).len()),
                    rv,
                    old(self).len(),
                ) && #[trigger] is_fair_gfp(
                    old(self).automata,
                    old(self).fsm.pairs@,
                    rv,
                    old(self).len(),
                    fv,
                ) && r == !outcome_ok(old(self).automata, rv, fv),
            forall|rv: Seq<Seq<bool>>, fv: Seq<Seq<bool>>|
                is_post_lfp(
                    old(self).automata,
                    old(self).fsm.pairs@,
                    init_vec(old(self).automata, old(self).fsm.init@, old(self).len()),
                    rv,
                    old(self).len(),
                ) && #[trigger] is_fair_gfp(
                    old(self).automata,
                    old(self).fsm.pairs@,
                    rv,
                    old(self).len(),
                    fv,
                ) ==> r == !outcome_ok(old(self).automata, rv, fv),
    {
        let ghost aut = self.automata;
        let ghost pairs = self.fsm.pairs@;
        let ghost len = self.len();
        let iv = self.init_vector();
        let reach: Vec<Bdd>;
        if self.args.parallel {
            let base = self.parallel_reachable_state(&iv, true, Option::None);
            reach = self.or_vectors(&iv, &base);
            proof {
                assert(views(reach@) == vf_or(views(iv@), views(base@)));
            }
        } else {
            reach = self.post_reachable(&iv);
        }
        let fair = self.fair_states(&reach);
        let r = !self.accepting_outcome(&reach, &fair);
        proof {
            let rv1 = views(reach@);
            let fv1 = views(fair@);
            assert(is_post_lfp(aut, pairs, init_vec(aut, self.fsm.init@, len), rv1, len));
            assert(is_fair_gfp(aut, pairs, rv1, len, fv1));
            assert forall|rv: Seq<Seq<bool>>, fv: Seq<Seq<bool>>|
                is_post_lfp(aut, pairs, init_vec(aut, old(self).fsm.init@, len), rv, len) && #[trigger] is_fair_gfp(
                aut,
                pairs,
                rv,
                len,
                fv,
            ) implies r == !outcome_ok(aut, rv, fv) by {
                lemma_post_lfp_unique(
                    aut,
                    pairs,
                    init_vec(aut, old(self).fsm.init@, len),
                    len,
                    rv,
                    rv1,
                );
                lemma_fair_gfp_unique(aut, pairs, rv1, len, fv, fv1);
            }
        }
        r
    }

    /// The main entry point of the engine: `true` reports a violation,
    /// `false` that the property holds — the same contract as the liveness
    /// check, stated once for every strategy configuration.
    pub fn check(&mut self) -> (r: bool)
        requires
            old(self).inv(),
        ensures
            final(self).inv(),
            final(self).manager == old(self).manager,
            final(self).fsm == old(self).fsm,
            final(self).automata == old(self).automata,
            final(self).args == old(self).args,
            exists|rv: Seq<Seq<bool>>, fv: Seq<Seq<bool>>|
                is_post_lfp(
                    old(self).automata,
                    old(self).fsm.pairs@,
                    init_vec(old(self).automata, old(self).fsm.init@, old(self).len()),
                    rv,
                    old(self).len(),
                ) && #[trigger] is_fair_gfp(
                    old(self).automata,
                    old(self).fsm.pairs@,
                    rv,
                    old(self).len(),
                    fv,
                ) && r == !outcome_ok(old(self).automata, rv, fv),
            forall|rv: Seq<Seq<bool>>, fv: Seq<Seq<bool>>|
                is_post_lfp(
                    old(self).automata,
                    old(self).fsm.pairs@,
                    init_vec(old(self).automata, old(self).fsm.init@, old(self).len()),
                    rv,
                    old(self).len(),
                ) && #[trigger] is_fair_gfp(
                    old(self).automata,
                    old(self).fsm.pairs@,
                    rv,
                    old(self).len(),
                    fv,
                ) ==> r == !outcome_ok(old(self).automata, rv, fv),
    {
        self.check_liveness()
    }
}

} // verus!
