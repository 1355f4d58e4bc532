use vstd::prelude::*;

verus! {

use crate::bdd::{Bdd, bf_mem, bf_sub, bf_or, bf_and, bf_diff, bf_const, views, vf_sub, vf_or,
    vf_diff, vf_wf, vf_empty, vf_false, sum_count, lemma_sum_count_lt, lemma_sum_count_bound,
    lemma_vf_sub_trans, lemma_vf_or_bounds, lemma_vf_or_upper};
use crate::trans::{post_img, pre_img};
use crate::automata::BuchiAutomata;
use crate::partitioned::{PartitionedSmc, copt, gather_fwd, step_post, step_pre, step_pre_at,
    post_fp, is_post_lfp, pre_fp, is_pre_lfp, lemma_step_post_monotone, lemma_step_post_or,
    lemma_step_pre_monotone, lemma_step_pre_or};

/// Edge `(i, e)` comes before position `(i0, e0)` in the row-major walk of
/// the adjacency lists.
pub open spec fn edge_before(i: int, e: int, i0: int, e0: int) -> bool {
    i < i0 || (i == i0 && e < e0)
}

/// `gather_fwd`, restricted to the edges before `(i0, e0)`: the loop
/// invariant shape of the forward gather.
pub open spec fn gather_fwd_upto(
    aut: BuchiAutomata,
    r: Seq<Seq<bool>>,
    j: int,
    len: nat,
    i0: int,
    e0: int,
) -> Seq<bool> {
    Seq::new(
        len,
        |x: int|
            exists|i: int, e: int|
                edge_before(i, e, i0, e0) && 0 <= i < aut.ns() && 0 <= e
                    < aut.forward@[i]@.len() && (#[trigger] aut.forward@[i]@[e]).0 == j && bf_mem(
                    r[i],
                    x,
                ) && bf_mem(aut.forward@[i]@[e].1@, x),
    )
}

/// The same restriction of `step_pre_at`'s inner union, before the constraint
/// is applied the union is still built edge by edge.
pub open spec fn gather_pre_upto(
    aut: BuchiAutomata,
    pairs: Seq<(u64, u64)>,
    c: Option<Seq<Seq<bool>>>,
    r: Seq<Seq<bool>>,
    j: int,
    len: nat,
    i0: int,
    e0: int,
) -> Seq<bool> {
    Seq::new(
        len,
        |x: int|
            (exists|i: int, e: int|
                edge_before(i, e, i0, e0) && 0 <= i < aut.ns() && 0 <= e
                    < aut.backward@[i]@.len() && (#[trigger] aut.backward@[i]@[e]).0 == j
                    && bf_mem(pre_img(pairs, r[i], len), x) && bf_mem(
                    aut.backward@[i]@[e].1@,
                    x,
                )) && copt(c, j, x),
    )
}

/// One edge's backward contribution to slot `j`: the predecessors of `r_i`
/// allowed through by the label, inside the constraint at `j`.
pub open spec fn pre_contrib(
    pairs: Seq<(u64, u64)>,
    c: Option<Seq<Seq<bool>>>,
    r_i: Seq<bool>,
    lbl: Seq<bool>,
    j: int,
    len: nat,
) -> Seq<bool> {
    Seq::new(
        len,
        |x: int| bf_mem(pre_img(pairs, r_i, len), x) && bf_mem(lbl, x) && copt(c, j, x),
    )
}

pub proof fn lemma_gather_fwd_upto_start(aut: BuchiAutomata, r: Seq<Seq<bool>>, j: int, len: nat)
    ensures
        gather_fwd_upto(aut, r, j, len, 0, 0) == bf_const(len, false),
{
    assert(gather_fwd_upto(aut, r, j, len, 0, 0) =~= bf_const(len, false));
}

pub proof fn lemma_gather_fwd_upto_step(
    aut: BuchiAutomata,
    r: Seq<Seq<bool>>,
    len: nat,
    i: int,
    e: int,
)
    requires
        0 <= i < aut.ns(),
        0 <= e < aut.forward@[i]@.len(),
        r.len() == aut.ns(),
        vf_wf(r, len),
        aut.forward@[i]@[e].1@.len() == len,
    ensures
        gather_fwd_upto(aut, r, aut.forward@[i]@[e].0 as int, len, i, e + 1) == bf_or(
            gather_fwd_upto(aut, r, aut.forward@[i]@[e].0 as int, len, i, e),
            bf_and(r[i], aut.forward@[i]@[e].1@),
        ),
        forall|j: int|
            j != aut.forward@[i]@[e].0 ==> #[trigger] gather_fwd_upto(aut, r, j, len, i, e + 1)
                == gather_fwd_upto(aut, r, j, len, i, e),
{
    let j0 = aut.forward@[i]@[e].0 as int;
    let lbl = aut.forward@[i]@[e].1@;
    assert forall|x: int| 0 <= x < len implies gather_fwd_upto(aut, r, j0, len, i, e + 1)[x]
        == bf_or(gather_fwd_upto(aut, r, j0, len, i, e), bf_and(r[i], lbl))[x] by {
        if gather_fwd_upto(aut, r, j0, len, i, e + 1)[x] {
            let (i2, e2) = choose|i2: int, e2: int|
                edge_before(i2, e2, i, e + 1) && 0 <= i2 < aut.ns() && 0 <= e2
                    < aut.forward@[i2]@.len() && (#[trigger] aut.forward@[i2]@[e2]).0 == j0
                    && bf_mem(r[i2], x) && bf_mem(aut.forward@[i2]@[e2].1@, x);
            if i2 == i && e2 == e {
                assert(bf_and(r[i], lbl)[x]);
            } else {
                assert(edge_before(i2, e2, i, e));
                assert(gather_fwd_upto(aut, r, j0, len, i, e)[x]);
            }
        }
        if gather_fwd_upto(aut, r, j0, len, i, e)[x] {
            let (i2, e2) = choose|i2: int, e2: int|
                edge_before(i2, e2, i, e) && 0 <= i2 < aut.ns() && 0 <= e2
                    < aut.forward@[i2]@.len() && (#[trigger] aut.forward@[i2]@[e2]).0 == j0
                    && bf_mem(r[i2], x) && bf_mem(aut.forward@[i2]@[e2].1@, x);
            assert(edge_before(i2, e2, i, e + 1));
            assert(gather_fwd_upto(aut, r, j0, len, i, e + 1)[x]);
        }
        if bf_and(r[i], lbl)[x] && 0 <= x < len {
            assert(bf_mem(r[i], x) && bf_mem(lbl, x));
            assert(edge_before(i, e, i, e + 1));
            assert(gather_fwd_upto(aut, r, j0, len, i, e + 1)[x]);
        }
    }
    assert(gather_fwd_upto(aut, r, j0, len, i, e + 1) =~= bf_or(
        gather_fwd_upto(aut, r, j0, len, i, e),
        bf_and(r[i], lbl),
    ));
    assert forall|j: int| j != j0 implies #[trigger] gather_fwd_upto(aut, r, j, len, i, e + 1)
        =~= gather_fwd_upto(aut, r, j, len, i, e) by {
        assert forall|x: int| 0 <= x < len implies gather_fwd_upto(aut, r, j, len, i, e + 1)[x]
            == gather_fwd_upto(aut, r, j, len, i, e)[x] by {
            if gather_fwd_upto(aut, r, j, len, i, e + 1)[x] {
                let (i2, e2) = choose|i2: int, e2: int|
                    edge_before(i2, e2, i, e + 1) && 0 <= i2 < aut.ns() && 0 <= e2
                        < aut.forward@[i2]@.len() && (#[trigger] aut.forward@[i2]@[e2]).0 == j
                        && bf_mem(r[i2], x) && bf_mem(aut.forward@[i2]@[e2].1@, x);
                assert(edge_before(i2, e2, i, e));
                assert(gather_fwd_upto(aut, r, j, len, i, e)[x]);
            }
            if gather_fwd_upto(aut, r, j, len, i, e)[x] {
                let (i2, e2) = choose|i2: int, e2: int|
                    edge_before(i2, e2, i, e) && 0 <= i2 < aut.ns() && 0 <= e2
                        < aut.forward@[i2]@.len() && (#[trigger] aut.forward@[i2]@[e2]).0 == j
                        && bf_mem(r[i2], x) && bf_mem(aut.forward@[i2]@[e2].1@, x);
                assert(edge_before(i2, e2, i, e + 1));
                assert(gather_fwd_upto(aut, r, j, len, i, e + 1)[x]);
            }
        }
    }
}

pub proof fn lemma_gather_fwd_upto_row_end(aut: BuchiAutomata, r: Seq<Seq<bool>>, len: nat, i: int)
    requires
        0 <= i < aut.ns(),
    ensures
        forall|j: int|
            #[trigger] gather_fwd_upto(aut, r, j, len, i, aut.forward@[i]@.len() as int)
                == gather_fwd_upto(aut, r, j, len, i + 1, 0),
{
    assert forall|j: int|
        #[trigger] gather_fwd_upto(aut, r, j, len, i, aut.forward@[i]@.len() as int)
            =~= gather_fwd_upto(aut, r, j, len, i + 1, 0) by {
        let rl = aut.forward@[i]@.len() as int;
        assert forall|x: int| 0 <= x < len implies gather_fwd_upto(aut, r, j, len, i, rl)[x]
            == gather_fwd_upto(aut, r, j, len, i + 1, 0)[x] by {
            if gather_fwd_upto(aut, r, j, len, i, rl)[x] {
                let (i2, e2) = choose|i2: int, e2: int|
                    edge_before(i2, e2, i, rl) && 0 <= i2 < aut.ns() && 0 <= e2
                        < aut.forward@[i2]@.len() && (#[trigger] aut.forward@[i2]@[e2]).0 == j
                        && bf_mem(r[i2], x) && bf_mem(aut.forward@[i2]@[e2].1@, x);
                assert(edge_before(i2, e2, i + 1, 0));
                assert(gather_fwd_upto(aut, r, j, len, i + 1, 0)[x]);
            }
            if gather_fwd_upto(aut, r, j, len, i + 1, 0)[x] {
                let (i2, e2) = choose|i2: int, e2: int|
                    edge_before(i2, e2, i + 1, 0) && 0 <= i2 < aut.ns() && 0 <= e2
                        < aut.forward@[i2]@.len() && (#[trigger] aut.forward@[i2]@[e2]).0 == j
                        && bf_mem(r[i2], x) && bf_mem(aut.forward@[i2]@[e2].1@, x);
                assert(edge_before(i2, e2, i, rl));
                assert(gather_fwd_upto(aut, r, j, len, i, rl)[x]);
            }
        }
    }
}

pub proof fn lemma_gather_fwd_upto_full(aut: BuchiAutomata, r: Seq<Seq<bool>>, len: nat)
    ensures
        forall|j: int|
            #[trigger] gather_fwd_upto(aut, r, j, len, aut.ns() as int, 0) == gather_fwd(
                aut,
                r,
                j,
                len,
            ),
{
    assert forall|j: int|
        #[trigger] gather_fwd_upto(aut, r, j, len, aut.ns() as int, 0) =~= gather_fwd(
            aut,
            r,
            j,
            len,
        ) by {
        let ns = aut.ns() as int;
        assert forall|x: int| 0 <= x < len implies gather_fwd_upto(aut, r, j, len, ns, 0)[x]
            == gather_fwd(aut, r, j, len)[x] by {
            if gather_fwd_upto(aut, r, j, len, ns, 0)[x] {
                let (i2, e2) = choose|i2: int, e2: int|
                    edge_before(i2, e2, ns, 0) && 0 <= i2 < aut.ns() && 0 <= e2
                        < aut.forward@[i2]@.len() && (#[trigger] aut.forward@[i2]@[e2]).0 == j
                        && bf_mem(r[i2], x) && bf_mem(aut.forward@[i2]@[e2].1@, x);
                assert(gather_fwd(aut, r, j, len)[x]);
            }
            if gather_fwd(aut, r, j, len)[x] {
                let (i2, e2) = choose|i2: int, e2: int|
                    0 <= i2 < aut.ns() && 0 <= e2 < aut.forward@[i2]@.len() && (
                    #[trigger] aut.forward@[i2]@[e2]).0 == j && bf_mem(r[i2], x) && bf_mem(
                        aut.forward@[i2]@[e2].1@,
                        x,
                    );
                assert(edge_before(i2, e2, ns, 0));
                assert(gather_fwd_upto(aut, r, j, len, ns, 0)[x]);
            }
        }
    }
}

impl PartitionedSmc {
    /// One forward round: gather along the automaton's forward edges, take
    /// one successor image per slot, and fold the result into `reach`.
    /// Returns the grown reach vector and the genuinely new frontier; the old
    /// `reach` is contained in the new one, so the rounds grow monotonically.
    pub fn post_step(&self, frontier: &Vec<Bdd>, reach: &Vec<Bdd>) -> (res: (Vec<Bdd>, Vec<Bdd>))
        requires
            self.inv(),
            self.vec_ok(frontier@),
            self.vec_ok(reach@),
        ensures
            self.vec_ok(res.0@),
            self.vec_ok(res.1@),
            views(res.0@) == vf_or(
                views(reach@),
                step_post(self.automata, self.fsm.pairs@, views(frontier@), self.len()),
            ),
            views(res.1@) == vf_diff(
                step_post(self.automata, self.fsm.pairs@, views(frontier@), self.len()),
                views(reach@),
            ),
            vf_sub(views(reach@), views(res.0@)),
    {
        let n = self.automata.num_state();
        let ghost aut = self.automata;
        let ghost rr = views(frontier@);
        let ghost len = self.len();
        let mut tmp = self.false_vector();
        proof {
            assert forall|j: int| 0 <= j < n implies #[trigger] views(tmp@)[j] == gather_fwd_upto(
                aut,
                rr,
                j,
                len,
                0,
                0,
            ) by {
                lemma_gather_fwd_upto_start(aut, rr, j, len);
            }
        }
        let mut i: usize = 0;
        while i < n
            invariant
                0 <= i <= n,
                self.inv(),
                self.vec_ok(frontier@),
                n == self.ns(),
                aut == self.automata,
                rr == views(frontier@),
                len == self.len(),
                self.vec_ok(tmp@),
                forall|j: int|
                    0 <= j < n ==> #[trigger] views(tmp@)[j] == gather_fwd_upto(
                        aut,
                        rr,
                        j,
                        len,
                        i as int,
                        0,
                    ),
            decreases n - i,
        {
            let row_len = self.automata.forward[i].len();
            let mut e: usize = 0;
            while e < row_len
                invariant
                    0 <= e <= row_len,
                    0 <= i < n,
                    self.inv(),
                    self.vec_ok(frontier@),
                    n == self.ns(),
                    aut == self.automata,
                    rr == views(frontier@),
                    len == self.len(),
                    row_len == aut.forward@[i as int]@.len(),
                    self.vec_ok(tmp@),
                    forall|j: int|
                        0 <= j < n ==> #[trigger] views(tmp@)[j] == gather_fwd_upto(
                            aut,
                            rr,
                            j,
                            len,
                            i as int,
                            e as int,
                        ),
                decreases row_len - e,
            {
                let edge = &self.automata.forward[i][e];
                let nxt = edge.0;
                let upd = frontier[i].and(&edge.1);
                let ghost tmp0 = tmp@;
                let cur = tmp[nxt].or(&upd);
                tmp[nxt] = cur;
                proof {
                    lemma_gather_fwd_upto_step(aut, rr, len, i as int, e as int);
                    assert(upd@ == bf_and(rr[i as int], aut.forward@[i as int]@[e as int].1@));
                    assert forall|j: int| 0 <= j < n implies #[trigger] views(tmp@)[j]
                        == gather_fwd_upto(aut, rr, j, len, i as int, e + 1) by {
                        if j == nxt {
                            assert(views(tmp@)[j] == bf_or(views(tmp0)[j], upd@));
                            assert(views(tmp@)[j] =~= gather_fwd_upto(
                                aut,
                                rr,
                                j,
                                len,
                                i as int,
                                e + 1,
                            ));
                        } else {
                            assert(views(tmp@)[j] == views(tmp0)[j]);
                        }
                    }
                }
                e += 1;
            }
            proof {
                lemma_gather_fwd_upto_row_end(aut, rr, len, i as int);
            }
            i += 1;
        }
        proof {
            lemma_gather_fwd_upto_full(aut, rr, len);
            assert forall|j: int| 0 <= j < n implies #[trigger] views(tmp@)[j] == gather_fwd(
                aut,
                rr,
                j,
                len,
            ) by {}
        }
        let mut new_reach: Vec<Bdd> = Vec::new();
        let mut new_frontier: Vec<Bdd> = Vec::new();
        let mut j: usize = 0;
        while j < n
            invariant
                0 <= j <= n,
                self.inv(),
                self.vec_ok(reach@),
                n == self.ns(),
                aut == self.automata,
                len == self.len(),
                self.vec_ok(tmp@),
                forall|k: int|
                    0 <= k < n ==> #[trigger] views(tmp@)[k] == gather_fwd(aut, rr, k, len),
                new_reach@.len() == j,
                new_frontier@.len() == j,
                forall|k: int|
                    0 <= k < j ==> ((#[trigger] new_reach@[k]).inv() && new_reach@[k].mgr
                        == self.manager.id && new_reach@[k].num_vars == self.manager.num_vars
                        && new_reach@[k]@ == bf_or(
                        views(reach@)[k],
                        post_img(self.fsm.pairs@, gather_fwd(aut, rr, k, len), len),
                    )),
                forall|k: int|
                    0 <= k < j ==> ((#[trigger] new_frontier@[k]).inv() && new_frontier@[k].mgr
                        == self.manager.id && new_frontier@[k].num_vars == self.manager.num_vars
                        && new_frontier@[k]@ == bf_diff(
                        post_img(self.fsm.pairs@, gather_fwd(aut, rr, k, len), len),
                        views(reach@)[k],
                    )),
            decreases n - j,
        {
            let img = self.fsm.post_image(&tmp[j]);
            proof {
                assert(self.fsm.state_len() == len);
                assert(views(tmp@)[j as int] == gather_fwd(aut, rr, j as int, len));
                assert(tmp@[j as int]@ == gather_fwd(aut, rr, j as int, len));
                assert(img@ == post_img(self.fsm.pairs@, gather_fwd(aut, rr, j as int, len), len));
            }
            let nr = reach[j].or(&img);
            let nf = img.diff(&reach[j]);
            proof {
                assert(nr@ == bf_or(views(reach@)[j as int], img@));
                assert(nf@ == bf_diff(img@, views(reach@)[j as int]));
            }
            new_reach.push(nr);
            new_frontier.push(nf);
            j += 1;
        }
        proof {
            assert(views(new_reach@) =~~= vf_or(
                views(reach@),
                step_post(aut, self.fsm.pairs@, rr, len),
            ));
            assert(views(new_frontier@) =~~= vf_diff(
                step_post(aut, self.fsm.pairs@, rr, len),
                views(reach@),
            ));
            assert forall|k: int| 0 <= k < n implies bf_sub(
                #[trigger] views(reach@)[k],
                views(new_reach@)[k],
            ) by {
                assert(views(new_reach@)[k].len() == views(reach@)[k].len());
            }
        }
        (new_reach, new_frontier)
    }
}

/// The per-slot views of an optional constraint vector.
pub open spec fn opt_views(c: Option<&Vec<Bdd>>) -> Option<Seq<Seq<bool>>> {
    match c {
        Option::None => Option::None,
        Option::Some(v) => Option::Some(views(v@)),
    }
}

pub proof fn lemma_gather_pre_upto_start(
    aut: BuchiAutomata,
    pairs: Seq<(u64, u64)>,
    c: Option<Seq<Seq<bool>>>,
    r: Seq<Seq<bool>>,
    j: int,
    len: nat,
)
    ensures
        gather_pre_upto(aut, pairs, c, r, j, len, 0, 0) == bf_const(len, false),
{
    assert(gather_pre_upto(aut, pairs, c, r, j, len, 0, 0) =~= bf_const(len, false));
}

pub proof fn lemma_gather_pre_upto_step(
    aut: BuchiAutomata,
    pairs: Seq<(u64, u64)>,
    c: Option<Seq<Seq<bool>>>,
    r: Seq<Seq<bool>>,
    len: nat,
    i: int,
    e: int,
)
    requires
        0 <= i < aut.ns(),
        0 <= e < aut.backward@[i]@.len(),
        r.len() == aut.ns(),
        vf_wf(r, len),
        aut.backward@[i]@[e].1@.len() == len,
    ensures
        gather_pre_upto(aut, pairs, c, r, aut.backward@[i]@[e].0 as int, len, i, e + 1) == bf_or(
            gather_pre_upto(aut, pairs, c, r, aut.backward@[i]@[e].0 as int, len, i, e),
            pre_contrib(pairs, c, r[i], aut.backward@[i]@[e].1@, aut.backward@[i]@[e].0 as int, len),
        ),
        forall|j: int|
            j != aut.backward@[i]@[e].0 ==> #[trigger] gather_pre_upto(
                aut,
                pairs,
                c,
                r,
                j,
                len,
                i,
                e + 1,
            ) == gather_pre_upto(aut, pairs, c, r, j, len, i, e),
{
    let j0 = aut.backward@[i]@[e].0 as int;
    let lbl = aut.backward@[i]@[e].1@;
    assert forall|x: int| 0 <= x < len implies gather_pre_upto(aut, pairs, c, r, j0, len, i, e + 1)[x]
        == bf_or(
        gather_pre_upto(aut, pairs, c, r, j0, len, i, e),
        pre_contrib(pairs, c, r[i], lbl, j0, len),
    )[x] by {
        if gather_pre_upto(aut, pairs, c, r, j0, len, i, e + 1)[x] {
            let (i2, e2) = choose|i2: int, e2: int|
                edge_before(i2, e2, i, e + 1) && 0 <= i2 < aut.ns() && 0 <= e2
                    < aut.backward@[i2]@.len() && (#[trigger] aut.backward@[i2]@[e2]).0 == j0
                    && bf_mem(pre_img(pairs, r[i2], len), x) && bf_mem(
                    aut.backward@[i2]@[e2].1@,
                    x,
                );
            if i2 == i && e2 == e {
                assert(pre_contrib(pairs, c, r[i], lbl, j0, len)[x]);
            } else {
                assert(edge_before(i2, e2, i, e));
                assert(gather_pre_upto(aut, pairs, c, r, j0, len, i, e)[x]);
            }
        }
        if gather_pre_upto(aut, pairs, c, r, j0, len, i, e)[x] {
            let (i2, e2) = choose|i2: int, e2: int|
                edge_before(i2, e2, i, e) && 0 <= i2 < aut.ns() && 0 <= e2
                    < aut.backward@[i2]@.len() && (#[trigger] aut.backward@[i2]@[e2]).0 == j0
                    && bf_mem(pre_img(pairs, r[i2], len), x) && bf_mem(
                    aut.backward@[i2]@[e2].1@,
                    x,
                );
            assert(edge_before(i2, e2, i, e + 1));
            assert(gather_pre_upto(aut, pairs, c, r, j0, len, i, e + 1)[x]);
        }
        if pre_contrib(pairs, c, r[i], lbl, j0, len)[x] && 0 <= x < len {
            assert(edge_before(i, e, i, e + 1));
            assert(gather_pre_upto(aut, pairs, c, r, j0, len, i, e + 1)[x]);
        }
    }
    assert(gather_pre_upto(aut, pairs, c, r, j0, len, i, e + 1) =~= bf_or(
        gather_pre_upto(aut, pairs, c, r, j0, len, i, e),
        pre_contrib(pairs, c, r[i], lbl, j0, len),
    ));
    assert forall|j: int| j != j0 implies #[trigger] gather_pre_upto(
        aut,
        pairs,
        c,
        r,
        j,
        len,
        i,
        e + 1,
    ) =~= gather_pre_upto(aut, pairs, c, r, j, len, i, e) by {
        assert forall|x: int| 0 <= x < len implies gather_pre_upto(aut, pairs, c, r, j, len, i, e
            + 1)[x] == gather_pre_upto(aut, pairs, c, r, j, len, i, e)[x] by {
            if gather_pre_upto(aut, pairs, c, r, j, len, i, e + 1)[x] {
                let (i2, e2) = choose|i2: int, e2: int|
                    edge_before(i2, e2, i, e + 1) && 0 <= i2 < aut.ns() && 0 <= e2
                        < aut.backward@[i2]@.len() && (#[trigger] aut.backward@[i2]@[e2]).0 == j
                        && bf_mem(pre_img(pairs, r[i2], len), x) && bf_mem(
                        aut.backward@[i2]@[e2].1@,
                        x,
                    );
                assert(edge_before(i2, e2, i, e));
                assert(gather_pre_upto(aut, pairs, c, r, j, len, i, e)[x]);
            }
            if gather_pre_upto(aut, pairs, c, r, j, len, i, e)[x] {
                let (i2, e2) = choose|i2: int, e2: int|
                    edge_before(i2, e2, i, e) && 0 <= i2 < aut.ns() && 0 <= e2
                        < aut.backward@[i2]@.len() && (#[trigger] aut.backward@[i2]@[e2]).0 == j
                        && bf_mem(pre_img(pairs, r[i2], len), x) && bf_mem(
                        aut.backward@[i2]@[e2].1@,
                        x,
                    );
                assert(edge_before(i2, e2, i, e + 1));
                assert(gather_pre_upto(aut, pairs, c, r, j, len, i, e + 1)[x]);
            }
        }
    }
}

pub proof fn lemma_gather_pre_upto_row_end(
    aut: BuchiAutomata,
    pairs: Seq<(u64, u64)>,
    c: Option<Seq<Seq<bool>>>,
    r: Seq<Seq<bool>>,
    len: nat,
    i: int,
)
    requires
        0 <= i < aut.ns(),
    ensures
        forall|j: int|
            #[trigger] gather_pre_upto(aut, pairs, c, r, j, len, i, aut.backward@[i]@.len() as int)
                == gather_pre_upto(aut, pairs, c, r, j, len, i + 1, 0),
{
    assert forall|j: int|
        #[trigger] gather_pre_upto(aut, pairs, c, r, j, len, i, aut.backward@[i]@.len() as int)
            =~= gather_pre_upto(aut, pairs, c, r, j, len, i + 1, 0) by {
        let rl = aut.backward@[i]@.len() as int;
        assert forall|x: int| 0 <= x < len implies gather_pre_upto(aut, pairs, c, r, j, len, i, rl)[x]
            == gather_pre_upto(aut, pairs, c, r, j, len, i + 1, 0)[x] by {
            if gather_pre_upto(aut, pairs, c, r, j, len, i, rl)[x] {
                let (i2, e2) = choose|i2: int, e2: int|
                    edge_before(i2, e2, i, rl) && 0 <= i2 < aut.ns() && 0 <= e2
                        < aut.backward@[i2]@.len() && (#[trigger] aut.backward@[i2]@[e2]).0 == j
                        && bf_mem(pre_img(pairs, r[i2], len), x) && bf_mem(
                        aut.backward@[i2]@[e2].1@,
                        x,
                    );
                assert(edge_before(i2, e2, i + 1, 0));
                assert(gather_pre_upto(aut, pairs, c, r, j, len, i + 1, 0)[x]);
            }
            if gather_pre_upto(aut, pairs, c, r, j, len, i + 1, 0)[x] {
                let (i2, e2) = choose|i2: int, e2: int|
                    edge_before(i2, e2, i + 1, 0) && 0 <= i2 < aut.ns() && 0 <= e2
                        < aut.backward@[i2]@.len() && (#[trigger] aut.backward@[i2]@[e2]).0 == j
                        && bf_mem(pre_img(pairs, r[i2], len), x) && bf_mem(
                        aut.backward@[i2]@[e2].1@,
                        x,
                    );
                assert(edge_before(i2, e2, i, rl));
                assert(gather_pre_upto(aut, pairs, c, r, j, len, i, rl)[x]);
            }
        }
    }
}

pub proof fn lemma_gather_pre_upto_full(
    aut: BuchiAutomata,
    pairs: Seq<(u64, u64)>,
    c: Option<Seq<Seq<bool>>>,
    r: Seq<Seq<bool>>,
    len: nat,
)
    ensures
        forall|j: int|
            #[trigger] gather_pre_upto(aut, pairs, c, r, j, len, aut.ns() as int, 0) == step_pre_at(
                aut,
                pairs,
                c,
                r,
                j,
                len,
            ),
{
    assert forall|j: int|
        #[trigger] gather_pre_upto(aut, pairs, c, r, j, len, aut.ns() as int, 0) =~= step_pre_at(
            aut,
            pairs,
            c,
            r,
            j,
            len,
        ) by {
        let ns = aut.ns() as int;
        assert forall|x: int| 0 <= x < len implies gather_pre_upto(aut, pairs, c, r, j, len, ns, 0)[x]
            == step_pre_at(aut, pairs, c, r, j, len)[x] by {
            if gather_pre_upto(aut, pairs, c, r, j, len, ns, 0)[x] {
                let (i2, e2) = choose|i2: int, e2: int|
                    edge_before(i2, e2, ns, 0) && 0 <= i2 < aut.ns() && 0 <= e2
                        < aut.backward@[i2]@.len() && (#[trigger] aut.backward@[i2]@[e2]).0 == j
                        && bf_mem(pre_img(pairs, r[i2], len), x) && bf_mem(
                        aut.backward@[i2]@[e2].1@,
                        x,
                    );
                assert(step_pre_at(aut, pairs, c, r, j, len)[x]);
            }
            if step_pre_at(aut, pairs, c, r, j, len)[x] {
                let (i2, e2) = choose|i2: int, e2: int|
                    0 <= i2 < aut.ns() && 0 <= e2 < aut.backward@[i2]@.len() && (
                    #[trigger] aut.backward@[i2]@[e2]).0 == j && bf_mem(
                        pre_img(pairs, r[i2], len),
                        x,
                    ) && bf_mem(aut.backward@[i2]@[e2].1@, x);
                assert(edge_before(i2, e2, ns, 0));
                assert(gather_pre_upto(aut, pairs, c, r, j, len, ns, 0)[x]);
            }
        }
    }
}

impl PartitionedSmc {
    /// One backward round: take one predecessor image per slot, push the
    /// results backward along the automaton's edges under their labels and
    /// the optional constraint, and fold into `reach`.  As in the forward
    /// round, `reach` only grows.
    pub fn pre_step(
        &self,
        frontier: &Vec<Bdd>,
        reach: &Vec<Bdd>,
        constraint: Option<&Vec<Bdd>>,
    ) -> (res: (Vec<Bdd>, Vec<Bdd>))
        requires
            self.inv(),
            self.vec_ok(frontier@),
            self.vec_ok(reach@),
            match constraint {
                Option::None => true,
                Option::Some(cv) => self.vec_ok(cv@),
            },
        ensures
            self.vec_ok(res.0@),
            self.vec_ok(res.1@),
            views(res.0@) == vf_or(
                views(reach@),
                step_pre(
                    self.automata,
                    self.fsm.pairs@,
                    opt_views(constraint),
                    views(frontier@),
                    self.len(),
                ),
            ),
            views(res.1@) == vf_diff(
                step_pre(
                    self.automata,
                    self.fsm.pairs@,
                    opt_views(constraint),
                    views(frontier@),
                    self.len(),
                ),
                views(reach@),
            ),
            vf_sub(views(reach@), views(res.0@)),
    {
        let n = self.automata.num_state();
        let ghost aut = self.automata;
        let ghost rr = views(frontier@);
        let ghost len = self.len();
        let ghost c = opt_views(constraint);
        let mut image: Vec<Bdd> = Vec::new();
        let mut i: usize = 0;
        while i < n
            invariant
                0 <= i <= n,
                self.inv(),
                self.vec_ok(frontier@),
                n == self.ns(),
                aut == self.automata,
                rr == views(frontier@),
                len == self.len(),
                image@.len() == i,
                forall|k: int|
                    0 <= k < i ==> ((#[trigger] image@[k]).inv() && image@[k].mgr
                        == self.manager.id && image@[k].num_vars == self.manager.num_vars
                        && image@[k]@ == pre_img(self.fsm.pairs@, rr[k], len)),
            decreases n - i,
        {
            let img = self.fsm.pre_image(&frontier[i]);
            proof {
                assert(self.fsm.state_len() == len);
            }
            image.push(img);
            i += 1;
        }
        let mut acc = self.false_vector();
        proof {
            assert forall|j: int| 0 <= j < n implies #[trigger] views(acc@)[j] == gather_pre_upto(
                aut,
                self.fsm.pairs@,
                c,
                rr,
                j,
                len,
                0,
                0,
            ) by {
                lemma_gather_pre_upto_start(aut, self.fsm.pairs@, c, rr, j, len);
            }
        }
        let mut i: usize = 0;
        while i < n
            invariant
                0 <= i <= n,
                self.inv(),
                self.vec_ok(frontier@),
                n == self.ns(),
                aut == self.automata,
                rr == views(frontier@),
                len == self.len(),
                c == opt_views(constraint),
                match constraint {
                    Option::None => true,
                    Option::Some(cv) => self.vec_ok(cv@),
                },
                image@.len() == n,
                forall|k: int|
                    0 <= k < n ==> ((#[trigger] image@[k]).inv() && image@[k].mgr
                        == self.manager.id && image@[k].num_vars == self.manager.num_vars
                        && image@[k]@ == pre_img(self.fsm.pairs@, rr[k], len)),
                self.vec_ok(acc@),
                forall|j: int|
                    0 <= j < n ==> #[trigger] views(acc@)[j] == gather_pre_upto(
                        aut,
                        self.fsm.pairs@,
                        c,
                        rr,
                        j,
                        len,
                        i as int,
                        0,
                    ),
            decreases n - i,
        {
            let row_len = self.automata.backward[i].len();
            let mut e: usize = 0;
            while e < row_len
                invariant
                    0 <= e <= row_len,
                    0 <= i < n,
                    self.inv(),
                    self.vec_ok(frontier@),
                    n == self.ns(),
                    aut == self.automata,
                    rr == views(frontier@),
                    len == self.len(),
                    c == opt_views(constraint),
                    match constraint {
                        Option::None => true,
                        Option::Some(cv) => self.vec_ok(cv@),
                    },
                    row_len == aut.backward@[i as int]@.len(),
                    image@.len() == n,
                    forall|k: int|
                        0 <= k < n ==> ((#[trigger] image@[k]).inv() && image@[k].mgr
                            == self.manager.id && image@[k].num_vars == self.manager.num_vars
                            && image@[k]@ == pre_img(self.fsm.pairs@, rr[k], len)),
                    self.vec_ok(acc@),
                    forall|j: int|
                        0 <= j < n ==> #[trigger] views(acc@)[j] == gather_pre_upto(
                            aut,
                            self.fsm.pairs@,
                            c,
                            rr,
                            j,
                            len,
                            i as int,
                            e as int,
                        ),
                decreases row_len - e,
            {
                let edge = &self.automata.backward[i][e];
                let nxt = edge.0;
                let masked = image[i].and(&edge.1);
                let upd = match constraint {
                    Option::Some(cv) => masked.and(&cv[nxt]),
                    Option::None => masked,
                };
                let ghost acc0 = acc@;
                let cur = acc[nxt].or(&upd);
                acc[nxt] = cur;
                proof {
                    lemma_gather_pre_upto_step(
                        aut,
                        self.fsm.pairs@,
                        c,
                        rr,
                        len,
                        i as int,
                        e as int,
                    );
                    assert(upd@ =~= pre_contrib(
                        self.fsm.pairs@,
                        c,
                        rr[i as int],
                        aut.backward@[i as int]@[e as int].1@,
                        nxt as int,
                        len,
                    ));
                    assert forall|j: int| 0 <= j < n implies #[trigger] views(acc@)[j]
                        == gather_pre_upto(aut, self.fsm.pairs@, c, rr, j, len, i as int, e + 1) by {
                        if j == nxt {
                            assert(views(acc@)[j] == bf_or(views(acc0)[j], upd@));
                        } else {
                            assert(views(acc@)[j] == views(acc0)[j]);
                        }
                    }
                }
                e += 1;
            }
            proof {
                lemma_gather_pre_upto_row_end(aut, self.fsm.pairs@, c, rr, len, i as int);
            }
            i += 1;
        }
        proof {
            lemma_gather_pre_upto_full(aut, self.fsm.pairs@, c, rr, len);
        }
        let mut new_reach: Vec<Bdd> = Vec::new();
        let mut new_frontier: Vec<Bdd> = Vec::new();
        let mut j: usize = 0;
        while j < n
            invariant
                0 <= j <= n,
                self.inv(),
                self.vec_ok(reach@),
                n == self.ns(),
                aut == self.automata,
                rr == views(frontier@),
                len == self.len(),
                c == opt_views(constraint),
                self.vec_ok(acc@),
                forall|k: int|
                    0 <= k < n ==> #[trigger] views(acc@)[k] == step_pre_at(
                        aut,
                        self.fsm.pairs@,
                        c,
                        rr,
                        k,
                        len,
                    ),
                new_reach@.len() == j,
                new_frontier@.len() == j,
                forall|k: int|
                    0 <= k < j ==> ((#[trigger] new_reach@[k]).inv() && new_reach@[k].mgr
                        == self.manager.id && new_reach@[k].num_vars == self.manager.num_vars
                        && new_reach@[k]@ == bf_or(
                        views(reach@)[k],
                        step_pre_at(aut, self.fsm.pairs@, c, rr, k, len),
                    )),
                forall|k: int|
                    0 <= k < j ==> ((#[trigger] new_frontier@[k]).inv() && new_frontier@[k].mgr
                        == self.manager.id && new_frontier@[k].num_vars == self.manager.num_vars
                        && new_frontier@[k]@ == bf_diff(
                        step_pre_at(aut, self.fsm.pairs@, c, rr, k, len),
                        views(reach@)[k],
                    )),
            decreases n - j,
        {
            let nr = reach[j].or(&acc[j]);
            let nf = acc[j].diff(&reach[j]);
            proof {
                assert(views(acc@)[j as int] == step_pre_at(aut, self.fsm.pairs@, c, rr, j as int, len));
                assert(acc@[j as int]@ == step_pre_at(aut, self.fsm.pairs@, c, rr, j as int, len));
                assert(nr@ == bf_or(views(reach@)[j as int], step_pre_at(aut, self.fsm.pairs@, c, rr, j as int, len)));
                assert(nf@ == bf_diff(step_pre_at(aut, self.fsm.pairs@, c, rr, j as int, len), views(reach@)[j as int]));
            }
            new_reach.push(nr);
            new_frontier.push(nf);
            j += 1;
        }
        proof {
            assert(views(new_reach@) =~~= vf_or(
                views(reach@),
                step_pre(aut, self.fsm.pairs@, c, rr, len),
            ));
            assert(views(new_frontier@) =~~= vf_diff(
                step_pre(aut, self.fsm.pairs@, c, rr, len),
                views(reach@),
            ));
            assert forall|k: int| 0 <= k < n implies bf_sub(
                #[trigger] views(reach@)[k],
                views(new_reach@)[k],
            ) by {
                assert(views(new_reach@)[k].len() == views(reach@)[k].len());
            }
        }
        (new_reach, new_frontier)
    }
}

pub proof fn lemma_step_post_shape(aut: BuchiAutomata, pairs: Seq<(u64, u64)>, r: Seq<Seq<bool>>, len: nat)
    ensures
        step_post(aut, pairs, r, len).len() == aut.ns(),
        vf_wf(step_post(aut, pairs, r, len), len),
{
    assert forall|j: int|
        0 <= j < aut.ns() implies (#[trigger] step_post(aut, pairs, r, len)[j]).len() == len by {}
}

pub proof fn lemma_step_pre_shape(
    aut: BuchiAutomata,
    pairs: Seq<(u64, u64)>,
    c: Option<Seq<Seq<bool>>>,
    r: Seq<Seq<bool>>,
    len: nat,
)
    ensures
        step_pre(aut, pairs, c, r, len).len() == aut.ns(),
        vf_wf(step_pre(aut, pairs, c, r, len), len),
{
    assert forall|j: int|
        0 <= j < aut.ns() implies (#[trigger] step_pre(aut, pairs, c, r, len)[j]).len() == len by {}
}

/// After folding one round into `reach`, the covering invariant of the
/// forward fixpoint holds again of the new reach and frontier.
pub proof fn lemma_post_preserved(
    aut: BuchiAutomata,
    pairs: Seq<(u64, u64)>,
    len: nat,
    ff: Seq<Seq<bool>>,
    rr: Seq<Seq<bool>>,
    fr: Seq<Seq<bool>>,
)
    requires
        ff.len() == aut.ns(),
        rr.len() == aut.ns(),
        fr.len() == aut.ns(),
        vf_wf(ff, len),
        vf_wf(rr, len),
        vf_wf(fr, len),
        vf_sub(ff, rr),
        vf_sub(fr, rr),
        vf_sub(step_post(aut, pairs, rr, len), vf_or(rr, step_post(aut, pairs, fr, len))),
    ensures
        vf_sub(ff, vf_or(rr, step_post(aut, pairs, fr, len))),
        vf_sub(
            vf_diff(step_post(aut, pairs, fr, len), rr),
            vf_or(rr, step_post(aut, pairs, fr, len)),
        ),
        vf_sub(
            step_post(aut, pairs, vf_or(rr, step_post(aut, pairs, fr, len)), len),
            vf_or(
                vf_or(rr, step_post(aut, pairs, fr, len)),
                step_post(aut, pairs, vf_diff(step_post(aut, pairs, fr, len), rr), len),
            ),
        ),
{
    let s = step_post(aut, pairs, fr, len);
    let r2 = vf_or(rr, s);
    let f2 = vf_diff(s, rr);
    lemma_step_post_shape(aut, pairs, fr, len);
    lemma_vf_or_upper(rr, s);
    lemma_vf_sub_trans(ff, rr, r2);
    assert forall|j: int| 0 <= j < aut.ns() implies bf_sub(#[trigger] f2[j], r2[j]) by {
        assert(f2[j].len() == len && r2[j].len() == len);
        assert forall|x: int| 0 <= x < len && #[trigger] f2[j][x] implies r2[j][x] by {
            assert(s[j][x]);
        }
    }
    // one round of the new reach splits over the union
    lemma_step_post_or(aut, pairs, rr, s, len);
    assert(step_post(aut, pairs, r2, len) == vf_or(
        step_post(aut, pairs, rr, len),
        step_post(aut, pairs, s, len),
    ));
    let target = vf_or(r2, step_post(aut, pairs, f2, len));
    lemma_step_post_shape(aut, pairs, f2, len);
    lemma_vf_or_upper(r2, step_post(aut, pairs, f2, len));
    // step of the old reach stays inside the new reach
    lemma_vf_sub_trans(step_post(aut, pairs, rr, len), r2, target);
    // step of the added part: the added part sits in frontier' or old reach
    assert forall|j: int| 0 <= j < aut.ns() implies bf_sub(#[trigger] s[j], vf_or(f2, rr)[j]) by {
        assert(s[j].len() == len && vf_or(f2, rr)[j].len() == len);
        assert forall|x: int| 0 <= x < len && #[trigger] s[j][x] implies vf_or(f2, rr)[j][x] by {
            assert(f2[j][x] || rr[j][x]);
        }
    }
    lemma_step_post_monotone(aut, pairs, s, vf_or(f2, rr), len);
    lemma_step_post_or(aut, pairs, f2, rr, len);
    assert(step_post(aut, pairs, vf_or(f2, rr), len) == vf_or(
        step_post(aut, pairs, f2, len),
        step_post(aut, pairs, rr, len),
    ));
    lemma_step_post_shape(aut, pairs, rr, len);
    lemma_vf_or_upper(r2, step_post(aut, pairs, f2, len));
    assert(vf_sub(step_post(aut, pairs, f2, len), target));
    lemma_vf_sub_trans(step_post(aut, pairs, rr, len), r2, target);
    lemma_vf_or_bounds(step_post(aut, pairs, f2, len), step_post(aut, pairs, rr, len), target);
    lemma_vf_sub_trans(
        step_post(aut, pairs, s, len),
        vf_or(step_post(aut, pairs, f2, len), step_post(aut, pairs, rr, len)),
        target,
    );
    lemma_vf_or_bounds(step_post(aut, pairs, rr, len), step_post(aut, pairs, s, len), target);
    assert(vf_sub(step_post(aut, pairs, r2, len), target));
}

/// Everything one round adds stays inside every closed superset of `ff`.
pub proof fn lemma_post_min(
    aut: BuchiAutomata,
    pairs: Seq<(u64, u64)>,
    len: nat,
    ff: Seq<Seq<bool>>,
    rr: Seq<Seq<bool>>,
    fr: Seq<Seq<bool>>,
    sc: Seq<Seq<bool>>,
)
    requires
        ff.len() == aut.ns(),
        rr.len() == aut.ns(),
        fr.len() == aut.ns(),
        vf_wf(ff, len),
        vf_wf(rr, len),
        vf_wf(fr, len),
        post_fp(aut, pairs, ff, sc, len),
        vf_sub(rr, sc),
        vf_sub(fr, sc),
    ensures
        vf_sub(vf_or(rr, step_post(aut, pairs, fr, len)), sc),
        vf_sub(vf_diff(step_post(aut, pairs, fr, len), rr), sc),
{
    let s = step_post(aut, pairs, fr, len);
    lemma_step_post_shape(aut, pairs, fr, len);
    lemma_step_post_monotone(aut, pairs, fr, sc, len);
    lemma_vf_sub_trans(s, step_post(aut, pairs, sc, len), sc);
    lemma_vf_or_bounds(rr, s, sc);
    assert forall|j: int| 0 <= j < aut.ns() implies bf_sub(#[trigger] vf_diff(s, rr)[j], sc[j]) by {
        assert(bf_sub(s[j], sc[j]));
        assert forall|x: int|
            0 <= x < len && #[trigger] vf_diff(s, rr)[j][x] implies sc[j][x] by {
            assert(s[j][x]);
        }
    }
}

/// When a round adds nothing new, `reach` is closed.
pub proof fn lemma_post_exit(
    aut: BuchiAutomata,
    pairs: Seq<(u64, u64)>,
    len: nat,
    ff: Seq<Seq<bool>>,
    rr: Seq<Seq<bool>>,
    fr: Seq<Seq<bool>>,
)
    requires
        ff.len() == aut.ns(),
        rr.len() == aut.ns(),
        fr.len() == aut.ns(),
        vf_wf(ff, len),
        vf_wf(rr, len),
        vf_wf(fr, len),
        vf_sub(ff, rr),
        vf_sub(fr, rr),
        vf_sub(step_post(aut, pairs, rr, len), vf_or(rr, step_post(aut, pairs, fr, len))),
        vf_empty(vf_diff(step_post(aut, pairs, fr, len), rr)),
    ensures
        post_fp(aut, pairs, ff, rr, len),
{
    let s = step_post(aut, pairs, fr, len);
    lemma_step_post_shape(aut, pairs, fr, len);
    assert forall|j: int| 0 <= j < aut.ns() implies bf_sub(#[trigger] s[j], rr[j]) by {
        assert forall|x: int| 0 <= x < len && #[trigger] s[j][x] implies rr[j][x] by {
            assert(0 <= j < vf_diff(s, rr).len());
            assert(!(vf_diff(s, rr)[j][x]));
        }
    }
    lemma_vf_or_bounds(rr, s, rr);
    lemma_vf_sub_trans(step_post(aut, pairs, rr, len), vf_or(rr, s), rr);
}

impl PartitionedSmc {
    /// Forward reachability: the least vector containing `from` and closed
    /// under the forward round, computed by iterating `post_step` until the
    /// frontier is empty.
    pub fn post_reachable(&mut self, from: &Vec<Bdd>) -> (r: Vec<Bdd>)
        requires
            old(self).inv(),
            old(self).vec_ok(from@),
        ensures
            final(self).inv(),
            final(self).manager == old(self).manager,
            final(self).fsm == old(self).fsm,
            final(self).automata == old(self).automata,
            final(self).args == old(self).args,
            final(self).vec_ok(r@),
            is_post_lfp(
                old(self).automata,
                old(self).fsm.pairs@,
                views(from@),
                views(r@),
                old(self).len(),
            ),
    {
        let ghost aut = self.automata;
        let ghost pairs = self.fsm.pairs@;
        let ghost len = self.len();
        let ghost ff = views(from@);
        let mut frontier = self.copy_vector(from);
        let mut reach = self.copy_vector(from);
        let mut rounds: u64 = 0;
        proof {
            lemma_vec_ok_wf(*self, from@);
            lemma_vec_ok_wf(*self, reach@);
            lemma_vec_ok_wf(*self, frontier@);
            assert forall|j: int| 0 <= j < aut.ns() implies bf_sub(#[trigger] ff[j], views(reach@)[j]) by {}
            lemma_step_post_shape(aut, pairs, views(frontier@), len);
            lemma_vf_or_upper(views(reach@), step_post(aut, pairs, views(frontier@), len));
            lemma_step_post_monotone(aut, pairs, views(reach@), views(reach@), len);
            assert(vf_sub(
                step_post(aut, pairs, views(reach@), len),
                vf_or(views(reach@), step_post(aut, pairs, views(frontier@), len)),
            ));
            assert forall|sc: Seq<Seq<bool>>| #[trigger] post_fp(aut, pairs, ff, sc, len) implies vf_sub(
                views(reach@),
                sc,
            ) && vf_sub(views(frontier@), sc) by {}
        }
        loop
            invariant
                self.inv(),
                self.manager == old(self).manager,
                self.fsm == old(self).fsm,
                self.automata == old(self).automata,
                self.args == old(self).args,
                aut == self.automata,
                pairs == self.fsm.pairs@,
                len == self.len(),
                ff == views(from@),
                ff.len() == aut.ns(),
                vf_wf(ff, len),
                self.vec_ok(frontier@),
                self.vec_ok(reach@),
                vf_sub(ff, views(reach@)),
                vf_sub(views(frontier@), views(reach@)),
                vf_sub(
                    step_post(aut, pairs, views(reach@), len),
                    vf_or(views(reach@), step_post(aut, pairs, views(frontier@), len)),
                ),
                forall|sc: Seq<Seq<bool>>|
                    #[trigger] post_fp(aut, pairs, ff, sc, len) ==> vf_sub(views(reach@), sc)
                        && vf_sub(views(frontier@), sc),
            ensures
                self.inv(),
                self.manager == old(self).manager,
                self.fsm == old(self).fsm,
                self.automata == old(self).automata,
                self.args == old(self).args,
                self.vec_ok(reach@),
                is_post_lfp(aut, pairs, ff, views(reach@), len),
            decreases aut.ns() * len - sum_count(views(reach@)),
        {
            let (new_reach, new_frontier) = self.post_step(&frontier, &reach);
            rounds = crate::command::bump(rounds);
            if self.all_false(&new_frontier) {
                proof {
                    lemma_vec_ok_wf(*self, reach@);
                    lemma_vec_ok_wf(*self, frontier@);
                    lemma_post_exit(aut, pairs, len, ff, views(reach@), views(frontier@));
                    assert(is_post_lfp(aut, pairs, ff, views(reach@), len));
                }
                break;
            }
            proof {
                lemma_vec_ok_wf(*self, reach@);
                lemma_vec_ok_wf(*self, frontier@);
                lemma_vec_ok_wf(*self, new_reach@);
                let rr = views(reach@);
                let fr = views(frontier@);
                lemma_post_preserved(aut, pairs, len, ff, rr, fr);
                assert forall|sc: Seq<Seq<bool>>| #[trigger] post_fp(aut, pairs, ff, sc, len) implies vf_sub(
                    views(new_reach@),
                    sc,
                ) && vf_sub(views(new_frontier@), sc) by {
                    lemma_post_min(aut, pairs, len, ff, rr, fr, sc);
                }
                // the measure drops: something genuinely new was found
                let (j, x) = choose|j: int, x: int|
                    0 <= j < views(new_frontier@).len() && 0 <= x < views(new_frontier@)[j].len()
                        && views(new_frontier@)[j][x];
                assert(views(new_reach@)[j][x] && !rr[j][x]);
                lemma_sum_count_lt(rr, views(new_reach@), j, x);
                lemma_sum_count_bound(views(new_reach@), len);
            }
            reach = new_reach;
            frontier = new_frontier;
        }
        self.statistic.post_reachable_rounds = rounds;
        reach
    }
}

/// After folding one backward round into `reach`, the covering invariant of
/// the backward fixpoint holds again.
pub proof fn lemma_pre_preserved(
    aut: BuchiAutomata,
    pairs: Seq<(u64, u64)>,
    c: Option<Seq<Seq<bool>>>,
    len: nat,
    ff: Seq<Seq<bool>>,
    rr: Seq<Seq<bool>>,
    fr: Seq<Seq<bool>>,
)
    requires
        ff.len() == aut.ns(),
        rr.len() == aut.ns(),
        fr.len() == aut.ns(),
        vf_wf(ff, len),
        vf_wf(rr, len),
        vf_wf(fr, len),
        vf_sub(
            step_pre(aut, pairs, c, vf_or(ff, rr), len),
            vf_or(rr, step_pre(aut, pairs, c, fr, len)),
        ),
    ensures
        vf_sub(
            vf_diff(step_pre(aut, pairs, c, fr, len), rr),
            vf_or(rr, step_pre(aut, pairs, c, fr, len)),
        ),
        vf_sub(
            step_pre(
                aut,
                pairs,
                c,
                vf_or(ff, vf_or(rr, step_pre(aut, pairs, c, fr, len))),
                len,
            ),
            vf_or(
                vf_or(rr, step_pre(aut, pairs, c, fr, len)),
                step_pre(aut, pairs, c, vf_diff(step_pre(aut, pairs, c, fr, len), rr), len),
            ),
        ),
{
    let s = step_pre(aut, pairs, c, fr, len);
    let r2 = vf_or(rr, s);
    let f2 = vf_diff(s, rr);
    lemma_step_pre_shape(aut, pairs, c, fr, len);
    lemma_vf_or_upper(rr, s);
    assert forall|j: int| 0 <= j < aut.ns() implies bf_sub(#[trigger] f2[j], r2[j]) by {
        assert(f2[j].len() == len && r2[j].len() == len);
        assert forall|x: int| 0 <= x < len && #[trigger] f2[j][x] implies r2[j][x] by {
            assert(s[j][x]);
        }
    }
    // the argument of the next round regroups as a union with the added part
    assert(vf_or(ff, r2) =~~= vf_or(vf_or(ff, rr), s));
    lemma_step_pre_or(aut, pairs, c, vf_or(ff, rr), s, len);
    assert(step_pre(aut, pairs, c, vf_or(ff, r2), len) == vf_or(
        step_pre(aut, pairs, c, vf_or(ff, rr), len),
        step_pre(aut, pairs, c, s, len),
    ));
    let target = vf_or(r2, step_pre(aut, pairs, c, f2, len));
    lemma_step_pre_shape(aut, pairs, c, f2, len);
    lemma_vf_or_upper(r2, step_pre(aut, pairs, c, f2, len));
    lemma_vf_sub_trans(step_pre(aut, pairs, c, vf_or(ff, rr), len), r2, target);
    // the added part sits in frontier' or old reach
    assert forall|j: int| 0 <= j < aut.ns() implies bf_sub(#[trigger] s[j], vf_or(f2, rr)[j]) by {
        assert(s[j].len() == len && vf_or(f2, rr)[j].len() == len);
        assert forall|x: int| 0 <= x < len && #[trigger] s[j][x] implies vf_or(f2, rr)[j][x] by {
            assert(f2[j][x] || rr[j][x]);
        }
    }
    lemma_step_pre_monotone(aut, pairs, c, s, vf_or(f2, rr), len);
    lemma_step_pre_or(aut, pairs, c, f2, rr, len);
    assert(step_pre(aut, pairs, c, vf_or(f2, rr), len) == vf_or(
        step_pre(aut, pairs, c, f2, len),
        step_pre(aut, pairs, c, rr, len),
    ));
    lemma_step_pre_shape(aut, pairs, c, rr, len);
    assert(vf_sub(step_pre(aut, pairs, c, f2, len), target));
    // step of the old reach alone also lands in the new reach
    assert forall|j: int| 0 <= j < aut.ns() implies bf_sub(#[trigger] rr[j], vf_or(ff, rr)[j]) by {
        assert(rr[j].len() == len && vf_or(ff, rr)[j].len() == len);
    }
    lemma_step_pre_monotone(aut, pairs, c, rr, vf_or(ff, rr), len);
    lemma_vf_sub_trans(
        step_pre(aut, pairs, c, rr, len),
        step_pre(aut, pairs, c, vf_or(ff, rr), len),
        target,
    );
    lemma_vf_or_bounds(step_pre(aut, pairs, c, f2, len), step_pre(aut, pairs, c, rr, len), target);
    lemma_vf_sub_trans(
        step_pre(aut, pairs, c, s, len),
        vf_or(step_pre(aut, pairs, c, f2, len), step_pre(aut, pairs, c, rr, len)),
        target,
    );
    lemma_vf_or_bounds(
        step_pre(aut, pairs, c, vf_or(ff, rr), len),
        step_pre(aut, pairs, c, s, len),
        target,
    );
    assert(vf_sub(step_pre(aut, pairs, c, vf_or(ff, r2), len), target));
}

/// Everything one backward round adds stays inside every vector closed for
/// `ff`.
pub proof fn lemma_pre_min(
    aut: BuchiAutomata,
    pairs: Seq<(u64, u64)>,
    c: Option<Seq<Seq<bool>>>,
    len: nat,
    ff: Seq<Seq<bool>>,
    rr: Seq<Seq<bool>>,
    fr: Seq<Seq<bool>>,
    sc: Seq<Seq<bool>>,
)
    requires
        ff.len() == aut.ns(),
        rr.len() == aut.ns(),
        fr.len() == aut.ns(),
        vf_wf(ff, len),
        vf_wf(rr, len),
        vf_wf(fr, len),
        pre_fp(aut, pairs, c, ff, sc, len),
        vf_sub(rr, sc),
        vf_sub(fr, vf_or(ff, sc)),
    ensures
        vf_sub(vf_or(rr, step_pre(aut, pairs, c, fr, len)), sc),
        vf_sub(vf_diff(step_pre(aut, pairs, c, fr, len), rr), vf_or(ff, sc)),
{
    let s = step_pre(aut, pairs, c, fr, len);
    lemma_step_pre_shape(aut, pairs, c, fr, len);
    lemma_step_pre_monotone(aut, pairs, c, fr, vf_or(ff, sc), len);
    lemma_vf_sub_trans(s, step_pre(aut, pairs, c, vf_or(ff, sc), len), sc);
    lemma_vf_or_bounds(rr, s, sc);
    assert forall|j: int| 0 <= j < aut.ns() implies bf_sub(
        #[trigger] vf_diff(s, rr)[j],
        vf_or(ff, sc)[j],
    ) by {
        assert(bf_sub(s[j], sc[j]));
        assert(vf_diff(s, rr)[j].len() == len && vf_or(ff, sc)[j].len() == len);
        assert forall|x: int|
            0 <= x < len && #[trigger] vf_diff(s, rr)[j][x] implies vf_or(ff, sc)[j][x] by {
            assert(s[j][x]);
            assert(sc[j][x]);
        }
    }
}

/// When a backward round adds nothing new, `reach` is closed for `ff`.
pub proof fn lemma_pre_exit(
    aut: BuchiAutomata,
    pairs: Seq<(u64, u64)>,
    c: Option<Seq<Seq<bool>>>,
    len: nat,
    ff: Seq<Seq<bool>>,
    rr: Seq<Seq<bool>>,
    fr: Seq<Seq<bool>>,
)
    requires
        ff.len() == aut.ns(),
        rr.len() == aut.ns(),
        fr.len() == aut.ns(),
        vf_wf(ff, len),
        vf_wf(rr, len),
        vf_wf(fr, len),
        vf_sub(
            step_pre(aut, pairs, c, vf_or(ff, rr), len),
            vf_or(rr, step_pre(aut, pairs, c, fr, len)),
        ),
        vf_empty(vf_diff(step_pre(aut, pairs, c, fr, len), rr)),
    ensures
        pre_fp(aut, pairs, c, ff, rr, len),
{
    let s = step_pre(aut, pairs, c, fr, len);
    lemma_step_pre_shape(aut, pairs, c, fr, len);
    assert forall|j: int| 0 <= j < aut.ns() implies bf_sub(#[trigger] s[j], rr[j]) by {
        assert forall|x: int| 0 <= x < len && #[trigger] s[j][x] implies rr[j][x] by {
            assert(0 <= j < vf_diff(s, rr).len());
            assert(!(vf_diff(s, rr)[j][x]));
        }
    }
    lemma_vf_or_bounds(rr, s, rr);
    lemma_vf_sub_trans(step_pre(aut, pairs, c, vf_or(ff, rr), len), vf_or(rr, s), rr);
}

impl PartitionedSmc {
    /// Constrained backward reachability: the least vector closed under the
    /// backward round applied to `from` together with what was already
    /// found.  The result holds the states that reach `from` again in one or
    /// more rounds; `from` itself is not included unless rediscovered.
    pub fn pre_reachable(&mut self, from: &Vec<Bdd>, constraint: Option<&Vec<Bdd>>) -> (r: Vec<
        Bdd,
    >)
        requires
            old(self).inv(),
            old(self).vec_ok(from@),
            match constraint {
                Option::None => true,
                Option::Some(cv) => old(self).vec_ok(cv@),
            },
        ensures
            final(self).inv(),
            final(self).manager == old(self).manager,
            final(self).fsm == old(self).fsm,
            final(self).automata == old(self).automata,
            final(self).args == old(self).args,
            final(self).vec_ok(r@),
            is_pre_lfp(
                old(self).automata,
                old(self).fsm.pairs@,
                opt_views(constraint),
                views(from@),
                views(r@),
                old(self).len(),
            ),
    {
        let ghost aut = self.automata;
        let ghost pairs = self.fsm.pairs@;
        let ghost len = self.len();
        let ghost ff = views(from@);
        let ghost c = opt_views(constraint);
        let mut frontier = self.copy_vector(from);
        let mut reach = self.false_vector();
        proof {
            lemma_vec_ok_wf(*self, from@);
            lemma_vec_ok_wf(*self, reach@);
            lemma_vec_ok_wf(*self, frontier@);
            assert(vf_or(ff, views(reach@)) =~~= ff);
            lemma_step_pre_shape(aut, pairs, c, views(frontier@), len);
            lemma_vf_or_upper(views(reach@), step_pre(aut, pairs, c, views(frontier@), len));
            assert(vf_sub(
                step_pre(aut, pairs, c, vf_or(ff, views(reach@)), len),
                vf_or(views(reach@), step_pre(aut, pairs, c, views(frontier@), len)),
            ));
            assert forall|sc: Seq<Seq<bool>>|
                #[trigger] pre_fp(aut, pairs, c, ff, sc, len) implies vf_sub(views(reach@), sc)
                && vf_sub(views(frontier@), vf_or(ff, sc)) by {
                assert forall|j: int| 0 <= j < aut.ns() implies bf_sub(
                    #[trigger] views(reach@)[j],
                    sc[j],
                ) by {
                    assert(sc[j].len() == len);
                }
                assert forall|j: int| 0 <= j < aut.ns() implies bf_sub(
                    #[trigger] views(frontier@)[j],
                    vf_or(ff, sc)[j],
                ) by {
                    assert(vf_or(ff, sc)[j].len() == len);
                    assert(views(frontier@)[j] == ff[j]);
                }
            }
        }
        loop
            invariant
                self.inv(),
                self.manager == old(self).manager,
                self.fsm == old(self).fsm,
                self.automata == old(self).automata,
                self.args == old(self).args,
                aut == self.automata,
                pairs == self.fsm.pairs@,
                len == self.len(),
                ff == views(from@),
                ff.len() == aut.ns(),
                vf_wf(ff, len),
                c == opt_views(constraint),
                match constraint {
                    Option::None => true,
                    Option::Some(cv) => self.vec_ok(cv@),
                },
                self.vec_ok(frontier@),
                self.vec_ok(reach@),
                vf_sub(
                    step_pre(aut, pairs, c, vf_or(ff, views(reach@)), len),
                    vf_or(views(reach@), step_pre(aut, pairs, c, views(frontier@), len)),
                ),
                forall|sc: Seq<Seq<bool>>|
                    #[trigger] pre_fp(aut, pairs, c, ff, sc, len) ==> vf_sub(views(reach@), sc)
                        && vf_sub(views(frontier@), vf_or(ff, sc)),
            ensures
                self.inv(),
                self.manager == old(self).manager,
                self.fsm == old(self).fsm,
                self.automata == old(self).automata,
                self.args == old(self).args,
                self.vec_ok(reach@),
                is_pre_lfp(aut, pairs, c, ff, views(reach@), len),
            decreases aut.ns() * len - sum_count(views(reach@)),
        {
            let (new_reach, new_frontier) = self.pre_step(&frontier, &reach, constraint);
            if self.all_false(&new_frontier) {
                proof {
                    lemma_vec_ok_wf(*self, reach@);
                    lemma_vec_ok_wf(*self, frontier@);
                    lemma_pre_exit(aut, pairs, c, len, ff, views(reach@), views(frontier@));
                    assert(is_pre_lfp(aut, pairs, c, ff, views(reach@), len));
                }
                break;
            }
            proof {
                lemma_vec_ok_wf(*self, reach@);
                lemma_vec_ok_wf(*self, frontier@);
                lemma_vec_ok_wf(*self, new_reach@);
                let rr = views(reach@);
                let fr = views(frontier@);
                lemma_pre_preserved(aut, pairs, c, len, ff, rr, fr);
                assert forall|sc: Seq<Seq<bool>>|
                    #[trigger] pre_fp(aut, pairs, c, ff, sc, len) implies vf_sub(
                    views(new_reach@),
                    sc,
                ) && vf_sub(views(new_frontier@), vf_or(ff, sc)) by {
                    lemma_pre_min(aut, pairs, c, len, ff, rr, fr, sc);
                }
                let (j, x) = choose|j: int, x: int|
                    0 <= j < views(new_frontier@).len() && 0 <= x < views(new_frontier@)[j].len()
                        && views(new_frontier@)[j][x];
                assert(views(new_reach@)[j][x] && !rr[j][x]);
                lemma_sum_count_lt(rr, views(new_reach@), j, x);
                lemma_sum_count_bound(views(new_reach@), len);
            }
            reach = new_reach;
            frontier = new_frontier;
        }
        reach
    }
}

/// A vector the engine accepts is a well-shaped vector of tables.
pub proof fn lemma_vec_ok_wf(smc: PartitionedSmc, v: Seq<Bdd>)
    requires
        smc.inv(),
        smc.vec_ok(v),
    ensures
        views(v).len() == smc.ns(),
        vf_wf(views(v), smc.len()),
{
    assert forall|j: int| 0 <= j < views(v).len() implies (#[trigger] views(v)[j]).len()
        == smc.len() by {
        assert(v[j].inv());
    }
}

} // verus!
