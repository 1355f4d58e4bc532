use vstd::prelude::*;

verus! {

use crate::bdd::{Bdd, bf_sub, views, vf_sub, vf_or, vf_wf, sum_count, lemma_sum_count_lt,
    lemma_sum_count_bound};
use crate::partitioned::{PartitionedSmc, post_fp, is_post_lfp, step_post,
    lemma_step_post_monotone};
use crate::liveness::{accepting_empty, init_vec, lemma_post_lfp_unique};
use crate::reachable::{lemma_vec_ok_wf, lemma_step_post_shape, lemma_post_preserved,
    lemma_post_min, lemma_post_exit};
use crate::bdd::lemma_vf_or_upper;

impl PartitionedSmc {
    /// Whether some accepting slot of `v` already holds a state.
    fn accepting_nonempty(&self, v: &Vec<Bdd>) -> (r: bool)
        requires
            self.inv(),
            self.vec_ok(v@),
        ensures
            r == !accepting_empty(self.automata, views(v@)),
    {
        let ghost aut = self.automata;
        let n = self.automata.accepting_states.len();
        let mut k: usize = 0;
        while k < n
            invariant
                0 <= k <= n,
                self.inv(),
                self.vec_ok(v@),
                n == aut.accepting_states@.len(),
                aut == self.automata,
                forall|k2: int, x: int|
                    0 <= k2 < k && 0 <= x < views(v@)[aut.accepting_states@[k2] as int].len() ==> !(
                    #[trigger] views(v@)[aut.accepting_states@[k2] as int][x]),
            decreases n - k,
        {
            let a = self.automata.accepting_states[k];
            if !v[a].is_constant(false) {
                proof {
                    let x = choose|x: int| 0 <= x < v@[a as int]@.len() && v@[a as int]@[x];
                    assert(views(v@)[a as int][x]);
                    assert(!accepting_empty(aut, views(v@)));
                }
                return true;
            }
            proof {
                assert forall|x: int|
                    0 <= x < views(v@)[a as int].len() implies !(views(v@)[a as int][x]) by {
                    assert(!v@[a as int]@[x]);
                }
            }
            k += 1;
        }
        false
    }

    /// Forward safety search: `true` exactly when the forward reachability
    /// fixpoint of `from` touches some accepting state — a violation found —
    /// and `false` when it stays clear of them all.  The search stops early
    /// as soon as an accepting state is touched: anything already reached
    /// lies inside the fixpoint.
    pub fn safety_forward(&mut self, from: &Vec<Bdd>) -> (r: bool)
        requires
            old(self).inv(),
            old(self).vec_ok(from@),
        ensures
            final(self).inv(),
            final(self).manager == old(self).manager,
            final(self).fsm == old(self).fsm,
            final(self).automata == old(self).automata,
            final(self).args == old(self).args,
            forall|rv: Seq<Seq<bool>>|
                #[trigger] is_post_lfp(
                    old(self).automata,
                    old(self).fsm.pairs@,
                    views(from@),
                    rv,
                    old(self).len(),
                ) ==> r == !accepting_empty(old(self).automata, rv),
    {
        let ghost aut = self.automata;
        let ghost pairs = self.fsm.pairs@;
        let ghost len = self.len();
        let ghost ff = views(from@);
        let mut frontier = self.copy_vector(from);
        let mut reach = self.copy_vector(from);
        proof {
            lemma_vec_ok_wf(*self, from@);
            lemma_vec_ok_wf(*self, reach@);
            lemma_vec_ok_wf(*self, frontier@);
            assert forall|j: int| 0 <= j < aut.ns() implies bf_sub(
                #[trigger] ff[j],
                views(reach@)[j],
            ) by {}
            lemma_step_post_shape(aut, pairs, views(frontier@), len);
            lemma_vf_or_upper(views(reach@), step_post(aut, pairs, views(frontier@), len));
            lemma_step_post_monotone(aut, pairs, views(reach@), views(reach@), len);
            assert(vf_sub(
                step_post(aut, pairs, views(reach@), len),
                vf_or(views(reach@), step_post(aut, pairs, views(frontier@), len)),
            ));
            assert forall|sc: Seq<Seq<bool>>|
                #[trigger] post_fp(aut, pairs, ff, sc, len) implies vf_sub(views(reach@), sc)
                && vf_sub(views(frontier@), sc) by {}
        }
        loop
            invariant
                self.inv(),
                self.manager == old(self).manager,
                self.fsm == old(self).fsm,
                self.automata == old(self).automata,
                self.args == old(self).args,
                aut == self.automata,
                pairs == self.fsm.pairs@,
                len == self.len(),
                ff == views(from@),
                ff.len() == aut.ns(),
                vf_wf(ff, len),
                self.vec_ok(frontier@),
                self.vec_ok(reach@),
                vf_sub(ff, views(reach@)),
                vf_sub(views(frontier@), views(reach@)),
                vf_sub(
                    step_post(aut, pairs, views(reach@), len),
                    vf_or(views(reach@), step_post(aut, pairs, views(frontier@), len)),
                ),
                forall|sc: Seq<Seq<bool>>|
                    #[trigger] post_fp(aut, pairs, ff, sc, len) ==> vf_sub(views(reach@), sc)
                        && vf_sub(views(frontier@), sc),
            decreases aut.ns() * len - sum_count(views(reach@)),
        {
            if self.accepting_nonempty(&reach) {
                proof {
                    assert forall|rv: Seq<Seq<bool>>|
                        #[trigger] is_post_lfp(aut, pairs, ff, rv, len) implies true
                        == !accepting_empty(aut, rv) by {
                        assert(post_fp(aut, pairs, ff, rv, len));
                        assert(vf_sub(views(reach@), rv));
                        assert(!accepting_empty(aut, views(reach@)));
                        let (k, x) = choose|k: int, x: int|
                            0 <= k < aut.accepting_states@.len() && 0 <= x < views(
                                reach@,
                            )[aut.accepting_states@[k] as int].len() && views(
                                reach@,
                            )[aut.accepting_states@[k] as int][x];
                        let a = aut.accepting_states@[k] as int;
                        assert(bf_sub(views(reach@)[a], rv[a]));
                        assert(rv[a][x]);
                        assert(!accepting_empty(aut, rv));
                    }
                }
                return true;
            }
            let (new_reach, new_frontier) = self.post_step(&frontier, &reach);
            if self.all_false(&new_frontier) {
                proof {
                    lemma_vec_ok_wf(*self, reach@);
                    lemma_vec_ok_wf(*self, frontier@);
                    lemma_post_exit(aut, pairs, len, ff, views(reach@), views(frontier@));
                    assert(is_post_lfp(aut, pairs, ff, views(reach@), len));
                    assert forall|rv: Seq<Seq<bool>>|
                        #[trigger] is_post_lfp(aut, pairs, ff, rv, len) implies false
                        == !accepting_empty(aut, rv) by {
                        lemma_post_lfp_unique(aut, pairs, ff, len, rv, views(reach@));
                        assert(accepting_empty(aut, views(reach@)));
                    }
                }
                return false;
            }
            proof {
                lemma_vec_ok_wf(*self, reach@);
                lemma_vec_ok_wf(*self, frontier@);
                lemma_vec_ok_wf(*self, new_reach@);
                let rr = views(reach@);
                let fr = views(frontier@);
                lemma_post_preserved(aut, pairs, len, ff, rr, fr);
                assert forall|sc: Seq<Seq<bool>>|
                    #[trigger] post_fp(aut, pairs, ff, sc, len) implies vf_sub(
                    views(new_reach@),
                    sc,
                ) && vf_sub(views(new_frontier@), sc) by {
                    lemma_post_min(aut, pairs, len, ff, rr, fr, sc);
                }
                let (j, x) = choose|j: int, x: int|
                    0 <= j < views(new_frontier@).len() && 0 <= x < views(new_frontier@)[j].len()
                        && views(new_frontier@)[j][x];
                assert(views(new_reach@)[j][x] && !rr[j][x]);
                lemma_sum_count_lt(rr, views(new_reach@), j, x);
                lemma_sum_count_bound(views(new_reach@), len);
            }
            reach = new_reach;
            frontier = new_frontier;
        }
    }

    /// The safety check run from the initial vector: `true` reports a
    /// violation.
    pub fn check_safety(&mut self) -> (r: bool)
        requires
            old(self).inv(),
        ensures
            final(self).inv(),
            final(self).manager == old(self).manager,
            final(self).fsm == old(self).fsm,
            final(self).automata == old(self).automata,
            final(self).args == old(self).args,
            forall|rv: Seq<Seq<bool>>|
                #[trigger] is_post_lfp(
                    old(self).automata,
                    old(self).fsm.pairs@,
                    init_vec(old(self).automata, old(self).fsm.init@, old(self).len()),
                    rv,
                    old(self).len(),
                ) ==> r == !accepting_empty(old(self).automata, rv),
    {
        let iv = self.init_vector();
        self.safety_forward(&iv)
    }
}

} // verus!
