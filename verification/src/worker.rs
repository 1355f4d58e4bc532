use vstd::prelude::*;

verus! {

use vstd::arithmetic::power2::pow2;
use crate::bdd::{Bdd, Manager, bf_mem, bf_sub, bf_or, bf_and, bf_diff, bf_const, views, vf_sub,
    vf_or, vf_wf, sum_count, lemma_sum_count_lt, lemma_sum_count_bound};
use crate::trans::{TransitionSystem, img, post_img, pre_img};
use crate::automata::{BuchiAutomata, edges_view};
use crate::partitioned::{PartitionedSmc, copt, gather_fwd, step_post, step_pre, step_pre_at,
    post_fp, is_post_lfp, pre_fp, is_pre_lfp};
use crate::reachable::{opt_views, lemma_vec_ok_wf};

/// One worker of the partitioned engine: its own manager, its own
/// translocated copy of the transition system, its slot's adjacency rows
/// with translocated guards, and its slot of the optional constraint.  The
/// configuration is fixed once created; the mutable run state (reach sets,
/// inboxes, the active counter) lives in the `Network`.
pub struct Worker {
    pub id: usize,
    pub manager: Manager,
    pub fsm: TransitionSystem,
    pub forward: Vec<(usize, Bdd)>,
    pub backward: Vec<(usize, Bdd)>,
    pub constraint: Option<Bdd>,
}

impl Worker {
    /// Well-formed relative to the automaton and system it was carved from:
    /// same pairs, same variables, the rows of its slot with the same guard
    /// functions, everything owned by its own manager.
    pub open spec fn wf(
        self,
        aut: BuchiAutomata,
        pairs: Seq<(u64, u64)>,
        c: Option<Seq<Seq<bool>>>,
        len: nat,
    ) -> bool {
        &&& self.manager.inv()
        &&& pow2(self.manager.num_vars as nat) == len
        &&& self.fsm.inv()
        &&& self.fsm.mgr == self.manager.id
        &&& self.fsm.num_vars == self.manager.num_vars
        &&& self.fsm.pairs@ == pairs
        &&& self.id < aut.ns()
        &&& edges_view(self.forward@) == edges_view(aut.forward@[self.id as int]@)
        &&& edges_view(self.backward@) == edges_view(aut.backward@[self.id as int]@)
        &&& forall|e: int|
            0 <= e < self.forward@.len() ==> ((#[trigger] self.forward@[e]).1.inv()
                && self.forward@[e].1.mgr == self.manager.id && self.forward@[e].1.num_vars
                == self.manager.num_vars && self.forward@[e].0 < aut.ns())
        &&& forall|e: int|
            0 <= e < self.backward@.len() ==> ((#[trigger] self.backward@[e]).1.inv()
                && self.backward@[e].1.mgr == self.manager.id && self.backward@[e].1.num_vars
                == self.manager.num_vars && self.backward@[e].0 < aut.ns())
        &&& match (c, self.constraint) {
            (Option::None, Option::None) => true,
            (Option::Some(cs), Option::Some(cb)) => cb.inv() && cb.mgr == self.manager.id
                && cb.num_vars == self.manager.num_vars && cb@ == cs[self.id as int],
            _ => false,
        }
    }

    /// The contributions of `data` along the given rows: one message per
    /// edge, the data gated by the edge's guard, addressed to the edge's
    /// other end.
    pub fn propagate(&self, rows: &Vec<(usize, Bdd)>, data: &Bdd) -> (r: Vec<(usize, Bdd)>)
        requires
            self.manager.inv(),
            data.inv(),
            data.owned_by(self.manager),
            forall|e: int|
                0 <= e < rows@.len() ==> ((#[trigger] rows@[e]).1.inv() && rows@[e].1.mgr
                    == self.manager.id && rows@[e].1.num_vars == self.manager.num_vars),
        ensures
            r@.len() == rows@.len(),
            forall|e: int|
                0 <= e < r@.len() ==> ((#[trigger] r@[e]).0 == rows@[e].0 && r@[e].1.inv()
                    && r@[e].1.mgr == self.manager.id && r@[e].1.num_vars
                    == self.manager.num_vars && r@[e].1@ == bf_and(data@, rows@[e].1@)),
    {
        let mut r: Vec<(usize, Bdd)> = Vec::new();
        let mut e: usize = 0;
        while e < rows.len()
            invariant
                0 <= e <= rows@.len(),
                self.manager.inv(),
                data.inv(),
                data.owned_by(self.manager),
                forall|k: int|
                    0 <= k < rows@.len() ==> ((#[trigger] rows@[k]).1.inv() && rows@[k].1.mgr
                        == self.manager.id && rows@[k].1.num_vars == self.manager.num_vars),
                r@.len() == e,
                forall|k: int|
                    0 <= k < e ==> ((#[trigger] r@[k]).0 == rows@[k].0 && r@[k].1.inv()
                        && r@[k].1.mgr == self.manager.id && r@[k].1.num_vars
                        == self.manager.num_vars && r@[k].1@ == bf_and(data@, rows@[k].1@)),
            decreases rows@.len() - e,
        {
            let dst = rows[e].0;
            let m = data.and(&rows[e].1);
            r.push((dst, m));
            e += 1;
        }
        r
    }

    /// The messages one round of this worker addresses to each slot: per
    /// destination, the union of the update's contributions over this
    /// worker's edges in the configured direction (predecessors first for a
    /// backward round).  Empty messages are computed but not sent.
    fn sends(
        &self,
        n: usize,
        forward: bool,
        a: &Bdd,
        Ghost(aut): Ghost<BuchiAutomata>,
        Ghost(pairs): Ghost<Seq<(u64, u64)>>,
        Ghost(c): Ghost<Option<Seq<Seq<bool>>>>,
        Ghost(len): Ghost<nat>,
    ) -> (r: Vec<Bdd>)
        requires
            aut.inv(),
            self.wf(aut, pairs, c, len),
            n == aut.ns(),
            a.inv(),
            a.owned_by(self.manager),
        ensures
            r@.len() == n,
            forall|j: int|
                0 <= j < n ==> ((#[trigger] r@[j]).inv() && r@[j].owned_by(self.manager) && r@[j]@
                    == msg_to(aut, pairs, forward, self.id as int, a@, j, len)),
    {
        let ghost w = self.id as int;
        let ghost v = single_at(aut.ns(), w, a@, len);
        let src: Bdd;
        let rows: &Vec<(usize, Bdd)>;
        if forward {
            src = a.clone();
            rows = &self.forward;
        } else {
            src = self.fsm.pre_image(a);
            rows = &self.backward;
        }
        let mut acc: Vec<Bdd> = Vec::new();
        let mut j: usize = 0;
        while j < n
            invariant
                0 <= j <= n,
                self.manager.inv(),
                acc@.len() == j,
                forall|k: int|
                    0 <= k < j ==> ((#[trigger] acc@[k]).inv() && acc@[k].owned_by(self.manager)
                        && acc@[k]@ == bf_const(len, false)),
                pow2(self.manager.num_vars as nat) == len,
            decreases n - j,
        {
            acc.push(self.manager.constant(false));
            j += 1;
        }
        proof {
            if forward {
                lemma_single_gather_fwd_bounds(aut, w, a@, len);
                assert forall|k: int| 0 <= k < n implies #[trigger] views(acc@)[k]
                    == crate::reachable::gather_fwd_upto(aut, v, k, len, w, 0) by {
                    assert(views(acc@)[k] =~= bf_const(len, false));
                }
            } else {
                lemma_single_gather_pre_bounds(aut, pairs, w, a@, len);
                assert(src@ == pre_img(pairs, a@, len));
                assert forall|k: int| 0 <= k < n implies #[trigger] views(acc@)[k]
                    == crate::reachable::gather_pre_upto(
                    aut,
                    pairs,
                    Option::None,
                    v,
                    k,
                    len,
                    w,
                    0,
                ) by {
                    assert(views(acc@)[k] =~= bf_const(len, false));
                }
            }
        }
        let row_len = rows.len();
        let mut e: usize = 0;
        while e < row_len
            invariant
                0 <= e <= row_len,
                aut.inv(),
                self.wf(aut, pairs, c, len),
                n == aut.ns(),
                w == self.id as int,
                v == single_at(aut.ns(), w, a@, len),
                a.inv(),
                a.owned_by(self.manager),
                src.inv(),
                src.owned_by(self.manager),
                forward ==> (rows@ == self.forward@ && src@ == a@),
                !forward ==> (rows@ == self.backward@ && src@ == pre_img(pairs, a@, len)),
                row_len == rows@.len(),
                acc@.len() == n,
                forall|k: int|
                    0 <= k < n ==> ((#[trigger] acc@[k]).inv() && acc@[k].owned_by(self.manager)),
                forward ==> forall|k: int|
                    0 <= k < n ==> #[trigger] views(acc@)[k] == crate::reachable::gather_fwd_upto(
                        aut,
                        v,
                        k,
                        len,
                        w,
                        e as int,
                    ),
                !forward ==> forall|k: int|
                    0 <= k < n ==> #[trigger] views(acc@)[k] == crate::reachable::gather_pre_upto(
                        aut,
                        pairs,
                        Option::None,
                        v,
                        k,
                        len,
                        w,
                        e as int,
                    ),
            decreases row_len - e,
        {
            let edge = &rows[e];
            let dst = edge.0;
            let upd = src.and(&edge.1);
            proof {
                if forward {
                    assert(edges_view(self.forward@).len() == self.forward@.len());
                    assert(edges_view(aut.forward@[w]@).len() == aut.forward@[w]@.len());
                    assert(self.forward@.len() == aut.forward@[w]@.len());
                    assert(0 <= (e as int) < self.forward@.len());
                    assert(edges_view(self.forward@)[e as int] == edges_view(
                        aut.forward@[w]@,
                    )[e as int]);
                    assert(self.forward@[e as int].0 == aut.forward@[w]@[e as int].0
                        && self.forward@[e as int].1@ == aut.forward@[w]@[e as int].1@);
                    assert(dst == aut.forward@[w]@[e as int].0);
                    assert(upd@ == bf_and(a@, aut.forward@[w]@[e as int].1@));
                    assert(dst < aut.ns());
                } else {
                    assert(edges_view(self.backward@).len() == self.backward@.len());
                    assert(edges_view(aut.backward@[w]@).len() == aut.backward@[w]@.len());
                    assert(self.backward@.len() == aut.backward@[w]@.len());
                    assert(0 <= (e as int) < self.backward@.len());
                    assert(edges_view(self.backward@)[e as int] == edges_view(
                        aut.backward@[w]@,
                    )[e as int]);
                    assert(self.backward@[e as int].0 == aut.backward@[w]@[e as int].0
                        && self.backward@[e as int].1@ == aut.backward@[w]@[e as int].1@);
                    assert(dst == aut.backward@[w]@[e as int].0);
                    assert(upd@ == bf_and(pre_img(pairs, a@, len), aut.backward@[w]@[e as int].1@));
                    assert(dst < aut.ns());
                }
            }
            let ghost acc0 = acc@;
            let cur = acc[dst].or(&upd);
            acc[dst] = cur;
            proof {
                if forward {
                    assert(aut.forward@[w]@[e as int].1@.len() == len) by {
                        assert(self.forward@[e as int].1.inv());
                        assert(edges_view(self.forward@)[e as int] == edges_view(
                            aut.forward@[w]@,
                        )[e as int]);
                    }
                    crate::reachable::lemma_gather_fwd_upto_step(aut, v, len, w, e as int);
                    assert(v[w] == a@);
                    assert forall|k: int| 0 <= k < n implies #[trigger] views(acc@)[k]
                        == crate::reachable::gather_fwd_upto(aut, v, k, len, w, e + 1) by {
                        if k == dst {
                            assert(views(acc@)[k] == bf_or(views(acc0)[k], upd@));
                            assert(views(acc@)[k] =~= crate::reachable::gather_fwd_upto(
                                aut,
                                v,
                                k,
                                len,
                                w,
                                e + 1,
                            ));
                        } else {
                            assert(views(acc@)[k] == views(acc0)[k]);
                        }
                    }
                } else {
                    assert(aut.backward@[w]@[e as int].1@.len() == len) by {
                        assert(self.backward@[e as int].1.inv());
                        assert(edges_view(self.backward@)[e as int] == edges_view(
                            aut.backward@[w]@,
                        )[e as int]);
                    }
                    crate::reachable::lemma_gather_pre_upto_step(
                        aut,
                        pairs,
                        Option::None,
                        v,
                        len,
                        w,
                        e as int,
                    );
                    assert(v[w] == a@);
                    assert(upd@ =~= crate::reachable::pre_contrib(
                        pairs,
                        Option::None,
                        v[w],
                        aut.backward@[w]@[e as int].1@,
                        dst as int,
                        len,
                    ));
                    assert forall|k: int| 0 <= k < n implies #[trigger] views(acc@)[k]
                        == crate::reachable::gather_pre_upto(
                        aut,
                        pairs,
                        Option::None,
                        v,
                        k,
                        len,
                        w,
                        e + 1,
                    ) by {
                        if k == dst {
                            assert(views(acc@)[k] == bf_or(views(acc0)[k], upd@));
                        } else {
                            assert(views(acc@)[k] == views(acc0)[k]);
                        }
                    }
                }
            }
            e += 1;
        }
        proof {
            if forward {
                lemma_single_gather_fwd_bounds(aut, w, a@, len);
                assert(edges_view(self.forward@).len() == edges_view(aut.forward@[w]@).len());
                assert(row_len == aut.forward@[w]@.len());
            } else {
                lemma_single_gather_pre_bounds(aut, pairs, w, a@, len);
                assert(edges_view(self.backward@).len() == edges_view(aut.backward@[w]@).len());
                assert(row_len == aut.backward@[w]@.len());
            }
            assert forall|k: int| 0 <= k < n implies (#[trigger] acc@[k])@ == msg_to(
                aut,
                pairs,
                forward,
                w,
                a@,
                k,
                len,
            ) by {
                assert(views(acc@)[k] == acc@[k]@);
            }
        }
        acc
    }

    /// One worker per automaton state, each with a fresh manager holding its
    /// own copy of the system and of its slot's rows.
    pub fn create_workers(smc: &PartitionedSmc, constraint: Option<&Vec<Bdd>>) -> (r: Vec<Worker>)
        requires
            smc.inv(),
            match constraint {
                Option::None => true,
                Option::Some(cv) => smc.vec_ok(cv@),
            },
        ensures
            r@.len() == smc.ns(),
            forall|i: int|
                0 <= i < r@.len() ==> (#[trigger] r@[i]).wf(
                    smc.automata,
                    smc.fsm.pairs@,
                    opt_views(constraint),
                    smc.len(),
                ) && r@[i].id == i,
    {
        let n = smc.automata.num_state();
        let mut r: Vec<Worker> = Vec::new();
        let mut i: usize = 0;
        while i < n
            invariant
                0 <= i <= n,
                smc.inv(),
                n == smc.ns(),
                match constraint {
                    Option::None => true,
                    Option::Some(cv) => smc.vec_ok(cv@),
                },
                r@.len() == i,
                forall|k: int|
                    0 <= k < i ==> (#[trigger] r@[k]).wf(
                        smc.automata,
                        smc.fsm.pairs@,
                        opt_views(constraint),
                        smc.len(),
                    ) && r@[k].id == k,
            decreases n - i,
        {
            let fsm = smc.fsm.clone_with_new_manager(i as u64);
            let manager = Manager { id: i as u64, num_vars: fsm.num_vars };
            let forward = translocate_row(&manager, &smc.automata.forward[i]);
            let backward = translocate_row(&manager, &smc.automata.backward[i]);
            let cons = match constraint {
                Option::Some(cv) => Option::Some(manager.translocate(&cv[i])),
                Option::None => Option::None,
            };
            let w = Worker { id: i, manager, fsm, forward, backward, constraint: cons };
            proof {
                assert(edges_view(w.forward@) =~= edges_view(smc.automata.forward@[i as int]@));
                assert(edges_view(w.backward@) =~= edges_view(smc.automata.backward@[i as int]@));
                assert(w.wf(smc.automata, smc.fsm.pairs@, opt_views(constraint), smc.len()));
            }
            r.push(w);
            i += 1;
        }
        r
    }
}

/// A row of edges re-expressed in the manager `m`; destinations and guard
/// functions are preserved.
fn translocate_row(m: &Manager, row: &Vec<(usize, Bdd)>) -> (r: Vec<(usize, Bdd)>)
    requires
        m.inv(),
        forall|e: int|
            0 <= e < row@.len() ==> ((#[trigger] row@[e]).1.inv() && row@[e].1.num_vars
                == m.num_vars),
    ensures
        r@.len() == row@.len(),
        forall|e: int|
            0 <= e < r@.len() ==> ((#[trigger] r@[e]).0 == row@[e].0 && r@[e].1.inv()
                && r@[e].1.mgr == m.id && r@[e].1.num_vars == m.num_vars && r@[e].1@
                == row@[e].1@),
        edges_view(r@) == edges_view(row@),
{
    let mut r: Vec<(usize, Bdd)> = Vec::new();
    let mut e: usize = 0;
    while e < row.len()
        invariant
            0 <= e <= row@.len(),
            m.inv(),
            forall|k: int|
                0 <= k < row@.len() ==> ((#[trigger] row@[k]).1.inv() && row@[k].1.num_vars
                    == m.num_vars),
            r@.len() == e,
            forall|k: int|
                0 <= k < e ==> ((#[trigger] r@[k]).0 == row@[k].0 && r@[k].1.inv() && r@[k].1.mgr
                    == m.id && r@[k].1.num_vars == m.num_vars && r@[k].1@ == row@[k].1@),
        decreases row@.len() - e,
    {
        let dst = row[e].0;
        let b = m.translocate(&row[e].1);
        r.push((dst, b));
        e += 1;
    }
    proof {
        assert(edges_view(r@) =~= edges_view(row@));
    }
    r
}

/// The run state of one partitioned reachability computation: the fixed
/// workers, one reach set and one inbox per worker, and the shared active
/// counter.  The counter always equals the number of unconsumed messages, so
/// observing zero means global quiescence.
pub struct Network {
    pub workers: Vec<Worker>,
    pub reaches: Vec<Bdd>,
    pub inboxes: Vec<Vec<Bdd>>,
    pub active: Ghost<nat>,
    pub forward: bool,
}

/// The number of unconsumed messages over all inboxes.
pub open spec fn pending(bs: Seq<Vec<Bdd>>) -> nat
    decreases bs.len(),
{
    if bs.len() == 0 {
        0
    } else {
        pending(bs.drop_last()) + bs.last()@.len()
    }
}

proof fn lemma_pending_update(bs: Seq<Vec<Bdd>>, j: int, nv: Vec<Bdd>)
    requires
        0 <= j < bs.len(),
    ensures
        pending(bs.update(j, nv)) + bs[j]@.len() == pending(bs) + nv@.len(),
    decreases bs.len(),
{
    if j == bs.len() - 1 {
        assert(bs.update(j, nv).drop_last() =~= bs.drop_last());
    } else {
        assert(bs.update(j, nv).drop_last() =~= bs.drop_last().update(j, nv));
        lemma_pending_update(bs.drop_last(), j, nv);
    }
}


/// The per-slot reach vectors of the network.
pub open spec fn net_reaches(net: Network) -> Seq<Seq<bool>> {
    Seq::new(net.reaches@.len(), |j: int| net.reaches@[j]@)
}

/// The views of the messages waiting in inbox `j`.
pub open spec fn inbox_views(net: Network, j: int) -> Seq<Seq<bool>> {
    Seq::new(net.inboxes@[j]@.len(), |m: int| net.inboxes@[j]@[m]@)
}

/// What the unconsumed messages of inbox `j` still cover: for a forward run
/// the successors of each message, for a backward run each message inside
/// the constraint at `j`.
pub open spec fn cover_at(
    net: Network,
    pairs: Seq<(u64, u64)>,
    c: Option<Seq<Seq<bool>>>,
    j: int,
    len: nat,
) -> Seq<bool> {
    Seq::new(
        len,
        |x: int|
            exists|m: int|
                0 <= m < inbox_views(net, j).len() && (if net.forward {
                    bf_mem(post_img(pairs, #[trigger] inbox_views(net, j)[m], len), x)
                } else {
                    bf_mem(inbox_views(net, j)[m], x) && copt(c, j, x)
                }),
    )
}

pub open spec fn covers(
    net: Network,
    pairs: Seq<(u64, u64)>,
    c: Option<Seq<Seq<bool>>>,
    ns: nat,
    len: nat,
) -> Seq<Seq<bool>> {
    Seq::new(ns, |j: int| cover_at(net, pairs, c, j, len))
}

/// Structural well-formedness of the network, counter aside.
pub open spec fn net_struct(
    net: Network,
    aut: BuchiAutomata,
    pairs: Seq<(u64, u64)>,
    c: Option<Seq<Seq<bool>>>,
    len: nat,
) -> bool {
    &&& net.workers@.len() == aut.ns()
    &&& net.reaches@.len() == aut.ns()
    &&& net.inboxes@.len() == aut.ns()
    &&& forall|i: int|
        0 <= i < net.workers@.len() ==> (#[trigger] net.workers@[i]).wf(aut, pairs, c, len)
            && net.workers@[i].id == i
    &&& forall|i: int|
        0 <= i < net.reaches@.len() ==> ((#[trigger] net.reaches@[i]).inv()
            && net.reaches@[i].owned_by(net.workers@[i].manager))
    &&& forall|j: int, m: int|
        0 <= j < net.inboxes@.len() && 0 <= m < net.inboxes@[j]@.len() ==> ((
        #[trigger] net.inboxes@[j]@[m]).inv() && net.inboxes@[j]@[m].num_vars
            == net.workers@[j].manager.num_vars)
}

/// The network invariant: structure plus the termination-detection law, the
/// active counter equals the number of unconsumed messages.
pub open spec fn net_wf(
    net: Network,
    aut: BuchiAutomata,
    pairs: Seq<(u64, u64)>,
    c: Option<Seq<Seq<bool>>>,
    len: nat,
) -> bool {
    net_struct(net, aut, pairs, c, len) && net.active@ == pending(net.inboxes@)
}

/// Closedness in the configured direction.
pub open spec fn net_closed(
    aut: BuchiAutomata,
    pairs: Seq<(u64, u64)>,
    c: Option<Seq<Seq<bool>>>,
    ff: Seq<Seq<bool>>,
    sc: Seq<Seq<bool>>,
    len: nat,
    forward: bool,
) -> bool {
    if forward {
        post_fp(aut, pairs, ff, sc, len)
    } else {
        pre_fp(aut, pairs, c, ff, sc, len)
    }
}

/// One round in the configured direction.
pub open spec fn net_step(
    aut: BuchiAutomata,
    pairs: Seq<(u64, u64)>,
    c: Option<Seq<Seq<bool>>>,
    u: Seq<Seq<bool>>,
    len: nat,
    forward: bool,
) -> Seq<Seq<bool>> {
    if forward {
        step_post(aut, pairs, u, len)
    } else {
        step_pre(aut, pairs, c, u, len)
    }
}

/// Soundness: reach sets and unconsumed covers stay inside every closed
/// vector.
pub open spec fn net_sound(
    net: Network,
    aut: BuchiAutomata,
    pairs: Seq<(u64, u64)>,
    c: Option<Seq<Seq<bool>>>,
    ff: Seq<Seq<bool>>,
    len: nat,
) -> bool {
    forall|sc: Seq<Seq<bool>>|
        #[trigger] net_closed(aut, pairs, c, ff, sc, len, net.forward) ==> vf_sub(
            net_reaches(net),
            sc,
        ) && vf_sub(covers(net, pairs, c, aut.ns(), len), sc)
}

/// Covering: whatever one round could still add is pending in some inbox.
pub open spec fn net_cover(
    net: Network,
    aut: BuchiAutomata,
    pairs: Seq<(u64, u64)>,
    c: Option<Seq<Seq<bool>>>,
    ff: Seq<Seq<bool>>,
    len: nat,
) -> bool {
    vf_sub(
        net_step(aut, pairs, c, vf_or(ff, net_reaches(net)), len, net.forward),
        vf_or(net_reaches(net), covers(net, pairs, c, aut.ns(), len)),
    )
}

/// The union of a batch of messages.
pub open spec fn fold_msgs(ms: Seq<Seq<bool>>, len: nat) -> Seq<bool> {
    Seq::new(len, |x: int| exists|e: int| 0 <= e < ms.len() && bf_mem(#[trigger] ms[e], x))
}

/// The batched update of a drained inbox, re-expressed in manager `m`.
fn fold_messages(m: &Manager, msgs: &Vec<Bdd>) -> (u: Bdd)
    requires
        m.inv(),
        forall|e: int|
            0 <= e < msgs@.len() ==> ((#[trigger] msgs@[e]).inv() && msgs@[e].num_vars
                == m.num_vars),
    ensures
        u.inv(),
        u.owned_by(*m),
        u@ == fold_msgs(views(msgs@), pow2(m.num_vars as nat)),
{
    let ghost len = pow2(m.num_vars as nat);
    let mut u = m.constant(false);
    let mut e: usize = 0;
    proof {
        assert(u@ =~= Seq::new(
            len,
            |x: int| exists|e2: int| 0 <= e2 < 0 && bf_mem(#[trigger] views(msgs@)[e2], x),
        ));
    }
    while e < msgs.len()
        invariant
            0 <= e <= msgs@.len(),
            m.inv(),
            len == pow2(m.num_vars as nat),
            forall|k: int|
                0 <= k < msgs@.len() ==> ((#[trigger] msgs@[k]).inv() && msgs@[k].num_vars
                    == m.num_vars),
            u.inv(),
            u.owned_by(*m),
            u@ == Seq::new(
                len,
                |x: int|
                    exists|e2: int| 0 <= e2 < e && bf_mem(#[trigger] views(msgs@)[e2], x),
            ),
        decreases msgs@.len() - e,
    {
        let t = m.translocate(&msgs[e]);
        let u2 = u.or(&t);
        proof {
            assert forall|x: int| 0 <= x < len implies u2@[x] == Seq::new(
                len,
                |x2: int|
                    exists|e2: int| 0 <= e2 < e + 1 && bf_mem(#[trigger] views(msgs@)[e2], x2),
            )[x] by {
                if u2@[x] {
                    if u@[x] {
                        let e2 = choose|e2: int|
                            0 <= e2 < e && bf_mem(#[trigger] views(msgs@)[e2], x);
                        assert(0 <= e2 < e + 1 && bf_mem(views(msgs@)[e2], x));
                    } else {
                        assert(bf_mem(views(msgs@)[e as int], x));
                    }
                }
                if exists|e2: int| 0 <= e2 < e + 1 && bf_mem(#[trigger] views(msgs@)[e2], x) {
                    let e2 = choose|e2: int|
                        0 <= e2 < e + 1 && bf_mem(#[trigger] views(msgs@)[e2], x);
                    if e2 < e {
                        assert(u@[x]);
                    } else {
                        assert(t@[x]);
                    }
                    assert(u2@[x]);
                }
            }
            assert(u2@ =~= Seq::new(
                len,
                |x: int|
                    exists|e2: int| 0 <= e2 < e + 1 && bf_mem(#[trigger] views(msgs@)[e2], x),
            ));
        }
        u = u2;
        e += 1;
    }
    proof {
        assert(u@ =~= fold_msgs(views(msgs@), len));
    }
    u
}

/// A vector that holds `v` at slot `w` and nothing elsewhere.
pub open spec fn single_at(ns: nat, w: int, v: Seq<bool>, len: nat) -> Seq<Seq<bool>> {
    Seq::new(
        ns,
        |i: int|
            if i == w {
                v
            } else {
                bf_const(len, false)
            },
    )
}

/// The one message a round of worker `w` with update `av` addresses to slot
/// `j`: forward, the update gated by `w`'s forward edges into `j` (the
/// receiver takes the image); backward, the predecessors of the update gated
/// by `w`'s backward edges into `j` (the receiver applies its constraint).
pub open spec fn msg_to(
    aut: BuchiAutomata,
    pairs: Seq<(u64, u64)>,
    forward: bool,
    w: int,
    av: Seq<bool>,
    j: int,
    len: nat,
) -> Seq<bool> {
    if forward {
        gather_fwd(aut, single_at(aut.ns(), w, av, len), j, len)
    } else {
        step_pre_at(aut, pairs, Option::None, single_at(aut.ns(), w, av, len), j, len)
    }
}

/// A message with no state in it.
pub open spec fn msg_empty(m: Seq<bool>) -> bool {
    forall|x: int| 0 <= x < m.len() ==> !m[x]
}

/// What one delivery to one slot leaves behind: nothing when the message is
/// empty, otherwise exactly one appended well-formed message with the given
/// function.
pub open spec fn delivered(oldb: Seq<Bdd>, newb: Seq<Bdd>, m: Seq<bool>, len: nat) -> bool {
    if msg_empty(m) {
        newb == oldb
    } else {
        &&& newb.len() == oldb.len() + 1
        &&& forall|k: int| 0 <= k < oldb.len() ==> #[trigger] newb[k] == oldb[k]
        &&& newb.last()@ == m
        &&& newb.last().inv()
        &&& pow2(newb.last().num_vars as nat) == len
    }
}

/// The successors of a batch's union are the union of the successors: the
/// batched image equals what the messages one by one still covered.
proof fn lemma_fold_cover_post(pairs: Seq<(u64, u64)>, ms: Seq<Seq<bool>>, len: nat)
    requires
        forall|e: int| 0 <= e < ms.len() ==> (#[trigger] ms[e]).len() == len,
    ensures
        post_img(pairs, fold_msgs(ms, len), len) =~= Seq::new(
            len,
            |x: int|
                exists|m: int|
                    0 <= m < ms.len() && bf_mem(post_img(pairs, #[trigger] ms[m], len), x),
        ),
{
    assert forall|x: int| 0 <= x < len implies post_img(pairs, fold_msgs(ms, len), len)[x]
        == Seq::new(
        len,
        |x2: int|
            exists|m: int| 0 <= m < ms.len() && bf_mem(post_img(pairs, #[trigger] ms[m], len), x2),
    )[x] by {
        if post_img(pairs, fold_msgs(ms, len), len)[x] {
            let k = choose|k: int|
                0 <= k < pairs.len() && (#[trigger] pairs[k]).1 == x && bf_mem(
                    fold_msgs(ms, len),
                    pairs[k].0 as int,
                );
            let y = pairs[k].0 as int;
            let m = choose|m: int| 0 <= m < ms.len() && bf_mem(#[trigger] ms[m], y);
            assert(bf_mem(post_img(pairs, ms[m], len), x));
        }
        if exists|m: int| 0 <= m < ms.len() && bf_mem(post_img(pairs, #[trigger] ms[m], len), x) {
            let m = choose|m: int|
                0 <= m < ms.len() && bf_mem(post_img(pairs, #[trigger] ms[m], len), x);
            let k = choose|k: int|
                0 <= k < pairs.len() && (#[trigger] pairs[k]).1 == x && bf_mem(
                    ms[m],
                    pairs[k].0 as int,
                );
            assert(bf_mem(fold_msgs(ms, len), pairs[k].0 as int));
            assert(bf_mem(post_img(pairs, fold_msgs(ms, len), len), x));
        }
    }
}

/// Rows other than `w`'s contribute nothing to the gather of a single-slot
/// vector, so the partial gather before `w`'s row is empty and the one after
/// it is already the whole.
proof fn lemma_single_gather_fwd_bounds(
    aut: BuchiAutomata,
    w: int,
    av: Seq<bool>,
    len: nat,
)
    requires
        0 <= w < aut.ns(),
    ensures
        forall|j: int|
            #[trigger] crate::reachable::gather_fwd_upto(
                aut,
                single_at(aut.ns(), w, av, len),
                j,
                len,
                w,
                0,
            ) == bf_const(len, false),
        forall|j: int|
            #[trigger] crate::reachable::gather_fwd_upto(
                aut,
                single_at(aut.ns(), w, av, len),
                j,
                len,
                w,
                aut.forward@[w]@.len() as int,
            ) == gather_fwd(aut, single_at(aut.ns(), w, av, len), j, len),
{
    let v = single_at(aut.ns(), w, av, len);
    assert forall|j: int|
        #[trigger] crate::reachable::gather_fwd_upto(aut, v, j, len, w, 0) =~= bf_const(
        len,
        false,
    ) by {
        assert forall|x: int|
            0 <= x < len implies !crate::reachable::gather_fwd_upto(aut, v, j, len, w, 0)[x] by {
            if crate::reachable::gather_fwd_upto(aut, v, j, len, w, 0)[x] {
                let (i2, e2) = choose|i2: int, e2: int|
                    crate::reachable::edge_before(i2, e2, w, 0) && 0 <= i2 < aut.ns() && 0 <= e2
                        < aut.forward@[i2]@.len() && (#[trigger] aut.forward@[i2]@[e2]).0 == j
                        && bf_mem(v[i2], x) && bf_mem(aut.forward@[i2]@[e2].1@, x);
                assert(i2 != w);
                assert(!bf_mem(v[i2], x));
                assert(false);
            }
        }
    }
    let rl = aut.forward@[w]@.len() as int;
    assert forall|j: int|
        #[trigger] crate::reachable::gather_fwd_upto(aut, v, j, len, w, rl) =~= gather_fwd(
        aut,
        v,
        j,
        len,
    ) by {
        assert forall|x: int|
            0 <= x < len implies crate::reachable::gather_fwd_upto(aut, v, j, len, w, rl)[x]
            == gather_fwd(aut, v, j, len)[x] by {
            if crate::reachable::gather_fwd_upto(aut, v, j, len, w, rl)[x] {
                let (i2, e2) = choose|i2: int, e2: int|
                    crate::reachable::edge_before(i2, e2, w, rl) && 0 <= i2 < aut.ns() && 0 <= e2
                        < aut.forward@[i2]@.len() && (#[trigger] aut.forward@[i2]@[e2]).0 == j
                        && bf_mem(v[i2], x) && bf_mem(aut.forward@[i2]@[e2].1@, x);
                assert(gather_fwd(aut, v, j, len)[x]);
            }
            if gather_fwd(aut, v, j, len)[x] {
                let (i2, e2) = choose|i2: int, e2: int|
                    0 <= i2 < aut.ns() && 0 <= e2 < aut.forward@[i2]@.len() && (
                    #[trigger] aut.forward@[i2]@[e2]).0 == j && bf_mem(v[i2], x) && bf_mem(
                        aut.forward@[i2]@[e2].1@,
                        x,
                    );
                if i2 != w {
                    assert(!bf_mem(v[i2], x));
                    assert(false);
                }
                assert(crate::reachable::edge_before(i2, e2, w, rl));
                assert(crate::reachable::gather_fwd_upto(aut, v, j, len, w, rl)[x]);
            }
        }
    }
}

/// The backward counterpart: only `w`'s backward row feeds the single-slot
/// gather.
proof fn lemma_single_gather_pre_bounds(
    aut: BuchiAutomata,
    pairs: Seq<(u64, u64)>,
    w: int,
    av: Seq<bool>,
    len: nat,
)
    requires
        0 <= w < aut.ns(),
    ensures
        forall|j: int|
            #[trigger] crate::reachable::gather_pre_upto(
                aut,
                pairs,
                Option::None,
                single_at(aut.ns(), w, av, len),
                j,
                len,
                w,
                0,
            ) == bf_const(len, false),
        forall|j: int|
            #[trigger] crate::reachable::gather_pre_upto(
                aut,
                pairs,
                Option::None,
                single_at(aut.ns(), w, av, len),
                j,
                len,
                w,
                aut.backward@[w]@.len() as int,
            ) == step_pre_at(aut, pairs, Option::None, single_at(aut.ns(), w, av, len), j, len),
{
    let v = single_at(aut.ns(), w, av, len);
    let c: Option<Seq<Seq<bool>>> = Option::None;
    assert forall|j: int|
        #[trigger] crate::reachable::gather_pre_upto(aut, pairs, c, v, j, len, w, 0) =~= bf_const(
        len,
        false,
    ) by {
        assert forall|x: int|
            0 <= x < len implies !crate::reachable::gather_pre_upto(aut, pairs, c, v, j, len, w, 0)[x] by {
            if crate::reachable::gather_pre_upto(aut, pairs, c, v, j, len, w, 0)[x] {
                let (i2, e2) = choose|i2: int, e2: int|
                    crate::reachable::edge_before(i2, e2, w, 0) && 0 <= i2 < aut.ns() && 0 <= e2
                        < aut.backward@[i2]@.len() && (#[trigger] aut.backward@[i2]@[e2]).0 == j
                        && bf_mem(pre_img(pairs, v[i2], len), x) && bf_mem(
                        aut.backward@[i2]@[e2].1@,
                        x,
                    );
                assert(i2 != w);
                let kk = choose|kk: int|
                    0 <= kk < pairs.len() && (#[trigger] pairs[kk]).0 == x && bf_mem(
                        v[i2],
                        pairs[kk].1 as int,
                    );
                assert(false);
            }
        }
    }
    let rl = aut.backward@[w]@.len() as int;
    assert forall|j: int|
        #[trigger] crate::reachable::gather_pre_upto(aut, pairs, c, v, j, len, w, rl)
            =~= step_pre_at(aut, pairs, c, v, j, len) by {
        assert forall|x: int|
            0 <= x < len implies crate::reachable::gather_pre_upto(aut, pairs, c, v, j, len, w, rl)[x]
            == step_pre_at(aut, pairs, c, v, j, len)[x] by {
            if crate::reachable::gather_pre_upto(aut, pairs, c, v, j, len, w, rl)[x] {
                let (i2, e2) = choose|i2: int, e2: int|
                    crate::reachable::edge_before(i2, e2, w, rl) && 0 <= i2 < aut.ns() && 0 <= e2
                        < aut.backward@[i2]@.len() && (#[trigger] aut.backward@[i2]@[e2]).0 == j
                        && bf_mem(pre_img(pairs, v[i2], len), x) && bf_mem(
                        aut.backward@[i2]@[e2].1@,
                        x,
                    );
                assert(step_pre_at(aut, pairs, c, v, j, len)[x]);
            }
            if step_pre_at(aut, pairs, c, v, j, len)[x] {
                let (i2, e2) = choose|i2: int, e2: int|
                    0 <= i2 < aut.ns() && 0 <= e2 < aut.backward@[i2]@.len() && (
                    #[trigger] aut.backward@[i2]@[e2]).0 == j && bf_mem(
                        pre_img(pairs, v[i2], len),
                        x,
                    ) && bf_mem(aut.backward@[i2]@[e2].1@, x);
                if i2 != w {
                    let kk = choose|kk: int|
                        0 <= kk < pairs.len() && (#[trigger] pairs[kk]).0 == x && bf_mem(
                            v[i2],
                            pairs[kk].1 as int,
                        );
                    assert(false);
                }
                assert(crate::reachable::edge_before(i2, e2, w, rl));
                assert(crate::reachable::gather_pre_upto(aut, pairs, c, v, j, len, w, rl)[x]);
            }
        }
    }
}

proof fn lemma_pow2_inj(a: nat, b: nat)
    requires
        pow2(a) == pow2(b),
    ensures
        a == b,
{
    if a < b {
        vstd::arithmetic::power2::lemma_pow2_strictly_increases(a, b);
    }
    if b < a {
        vstd::arithmetic::power2::lemma_pow2_strictly_increases(b, a);
    }
}

/// Facts every closed vector gives about its own shape.
proof fn lemma_closed_shape(
    aut: BuchiAutomata,
    pairs: Seq<(u64, u64)>,
    c: Option<Seq<Seq<bool>>>,
    ff: Seq<Seq<bool>>,
    sc: Seq<Seq<bool>>,
    len: nat,
    forward: bool,
)
    requires
        ff.len() == aut.ns(),
        vf_wf(ff, len),
        net_closed(aut, pairs, c, ff, sc, len, forward),
    ensures
        sc.len() == aut.ns(),
        vf_wf(sc, len),
{
    if forward {
        assert(vf_sub(ff, sc));
        assert forall|j: int| 0 <= j < sc.len() implies (#[trigger] sc[j]).len() == len by {
            assert(bf_sub(ff[j], sc[j]));
        }
    }
}

/// Two inbox states with the same message counts hold the same number of
/// unconsumed messages.
proof fn lemma_pending_same_lens(a: Seq<Vec<Bdd>>, b: Seq<Vec<Bdd>>)
    requires
        a.len() == b.len(),
        forall|j: int| 0 <= j < a.len() ==> (#[trigger] a[j])@.len() == b[j]@.len(),
    ensures
        pending(a) == pending(b),
    decreases a.len(),
{
    if a.len() > 0 {
        assert forall|j: int| 0 <= j < a.drop_last().len() implies (#[trigger] a.drop_last()[j])@.len()
            == b.drop_last()[j]@.len() by {
            assert(a[j]@.len() == b[j]@.len());
        }
        lemma_pending_same_lens(a.drop_last(), b.drop_last());
        assert(a.last()@.len() == b.last()@.len());
    }
}

/// The round law of the protocol: a worker has drained its inbox, folded the
/// genuinely new part `av` of what that inbox covered into its reach set,
/// and handed each peer its one gated contribution.  Then the network is
/// still structurally sound, every reach set and every pending cover still
/// lies inside every closed vector, and whatever one round could still add
/// is still pending in some inbox — so at quiescence the reach sets are
/// exactly the round fixpoint.
#[verifier::rlimit(100)]
#[verifier::spinoff_prover]
proof fn lemma_net_round(
    net0: Network,
    net1: Network,
    aut: BuchiAutomata,
    pairs: Seq<(u64, u64)>,
    c: Option<Seq<Seq<bool>>>,
    ff: Seq<Seq<bool>>,
    len: nat,
    w: int,
    av: Seq<bool>,
)
    requires
        aut.inv(),
        ff.len() == aut.ns(),
        vf_wf(ff, len),
        net_struct(net0, aut, pairs, c, len),
        net_sound(net0, aut, pairs, c, ff, len),
        net_cover(net0, aut, pairs, c, ff, len),
        0 <= w < aut.ns(),
        net1.forward == net0.forward,
        net1.workers == net0.workers,
        net1.reaches@.len() == aut.ns(),
        forall|i: int|
            0 <= i < net1.reaches@.len() ==> ((#[trigger] net1.reaches@[i]).inv()
                && net1.reaches@[i].owned_by(net1.workers@[i].manager)),
        net_reaches(net1)[w] == bf_or(
            net_reaches(net0)[w],
            covers(net0, pairs, c, aut.ns(), len)[w],
        ),
        forall|j: int|
            0 <= j < aut.ns() && j != w ==> #[trigger] net_reaches(net1)[j] == net_reaches(net0)[j],
        av == bf_diff(covers(net0, pairs, c, aut.ns(), len)[w], net_reaches(net0)[w]),
        net1.inboxes@.len() == aut.ns(),
        forall|j: int|
            0 <= j < aut.ns() && j != w ==> delivered(
                net0.inboxes@[j]@,
                (#[trigger] net1.inboxes@[j])@,
                msg_to(aut, pairs, net0.forward, w, av, j, len),
                len,
            ),
        delivered(
            Seq::<Bdd>::empty(),
            net1.inboxes@[w]@,
            msg_to(aut, pairs, net0.forward, w, av, w, len),
            len,
        ),
    ensures
        net_struct(net1, aut, pairs, c, len),
        net_sound(net1, aut, pairs, c, ff, len),
        net_cover(net1, aut, pairs, c, ff, len),
{
    let ns = aut.ns() as int;
    let fwd = net0.forward;
    let rr = net_reaches(net0);
    let cc = covers(net0, pairs, c, aut.ns(), len);
    let rr1 = net_reaches(net1);
    let cc1 = covers(net1, pairs, c, aut.ns(), len);
    let uu = vf_or(ff, rr);
    let uu1 = vf_or(ff, rr1);
    let va = single_at(aut.ns(), w, av, len);
    // shapes
    assert forall|j: int| 0 <= j < ns implies ((#[trigger] rr[j]).len() == len && rr1[j].len()
        == len && cc[j].len() == len && cc1[j].len() == len) by {
        assert(net0.reaches@[j].inv());
        assert(pow2(net0.workers@[j].manager.num_vars as nat) == len);
    }
    assert(av.len() == len);
    assert forall|j: int| 0 <= j < ns implies (#[trigger] va[j]).len() == len by {}
    // structural invariant of the new state
    assert forall|j: int, m: int|
        0 <= j < net1.inboxes@.len() && 0 <= m < net1.inboxes@[j]@.len() implies ((
    #[trigger] net1.inboxes@[j]@[m]).inv() && net1.inboxes@[j]@[m].num_vars
        == net1.workers@[j].manager.num_vars) by {
        let mj = msg_to(aut, pairs, fwd, w, av, j, len);
        if j != w && m < net0.inboxes@[j]@.len() {
            assert(net1.inboxes@[j]@[m] == net0.inboxes@[j]@[m]);
            assert(net0.inboxes@[j]@[m].inv());
        } else {
            assert(!msg_empty(mj));
            assert(m == net1.inboxes@[j]@.len() - 1);
            assert(net1.inboxes@[j]@[m] == net1.inboxes@[j]@.last());
            lemma_pow2_inj(
                net1.inboxes@[j]@[m].num_vars as nat,
                net0.workers@[j].manager.num_vars as nat,
            );
        }
    }
    assert(net_struct(net1, aut, pairs, c, len));
    // a delivered message's cover lands in the new covers
    assert forall|j: int, x: int|
        0 <= j < ns && 0 <= x < len && !msg_empty(msg_to(aut, pairs, fwd, w, av, j, len)) && (
        if fwd {
            bf_mem(post_img(pairs, msg_to(aut, pairs, fwd, w, av, j, len), len), x)
        } else {
            bf_mem(msg_to(aut, pairs, fwd, w, av, j, len), x) && copt(c, j, x)
        }) implies #[trigger] cc1[j][x] by {
        let mj = msg_to(aut, pairs, fwd, w, av, j, len);
        let last = net1.inboxes@[j]@.len() - 1;
        assert(net1.inboxes@[j]@.last()@ == mj);
        assert(inbox_views(net1, j)[last] == mj);
        assert(cover_at(net1, pairs, c, j, len)[x]);
    }
    // the old reach-plus-cover bound moves to the new state
    assert forall|j: int| 0 <= j < ns implies bf_sub(
        #[trigger] bf_or(rr[j], cc[j]),
        bf_or(rr1[j], cc1[j]),
    ) by {
        assert forall|x: int|
            0 <= x < len && #[trigger] bf_or(rr[j], cc[j])[x] implies bf_or(rr1[j], cc1[j])[x] by {
            if j == w {
                assert(rr1[w][x]);
            } else {
                if rr[j][x] {
                    assert(rr1[j][x]);
                } else {
                    assert(cc[j][x]);
                    let m = choose|m: int|
                        0 <= m < inbox_views(net0, j).len() && (if fwd {
                            bf_mem(post_img(pairs, #[trigger] inbox_views(net0, j)[m], len), x)
                        } else {
                            bf_mem(inbox_views(net0, j)[m], x) && copt(c, j, x)
                        });
                    assert(net1.inboxes@[j]@[m] == net0.inboxes@[j]@[m]);
                    assert(inbox_views(net1, j)[m] == inbox_views(net0, j)[m]);
                    assert(cc1[j][x]);
                }
            }
        }
    }
    // soundness
    assert forall|sc: Seq<Seq<bool>>|
        #[trigger] net_closed(aut, pairs, c, ff, sc, len, net1.forward) implies vf_sub(rr1, sc)
        && vf_sub(cc1, sc) by {
        lemma_closed_shape(aut, pairs, c, ff, sc, len, fwd);
        assert(vf_sub(rr, sc) && vf_sub(cc, sc));
        assert forall|j: int| 0 <= j < ns implies bf_sub(#[trigger] rr1[j], sc[j]) by {
            assert forall|x: int| 0 <= x < len && #[trigger] rr1[j][x] implies sc[j][x] by {
                if j == w {
                    assert(rr[w][x] || cc[w][x]);
                    assert(bf_sub(rr[w], sc[w]));
                    assert(bf_sub(cc[w], sc[w]));
                } else {
                    assert(bf_sub(rr[j], sc[j]));
                }
            }
        }
        // the single-slot update sits inside every closed vector
        assert forall|i: int| 0 <= i < ns implies bf_sub(#[trigger] va[i], sc[i]) by {
            assert(bf_sub(cc[w], sc[w]));
            assert forall|x: int| 0 <= x < len && #[trigger] va[i][x] implies sc[i][x] by {
                assert(i == w);
                assert(cc[w][x]);
            }
        }
        assert forall|i: int| 0 <= i < ns implies bf_sub(#[trigger] va[i], vf_or(ff, sc)[i]) by {
            assert(vf_or(ff, sc)[i].len() == len);
            assert forall|x: int| 0 <= x < len && #[trigger] va[i][x] implies vf_or(ff, sc)[i][x] by {
                assert(sc[i][x]);
            }
        }
        assert forall|j: int| 0 <= j < ns implies bf_sub(#[trigger] cc1[j], sc[j]) by {
            assert forall|x: int| 0 <= x < len && #[trigger] cc1[j][x] implies sc[j][x] by {
                let mj = msg_to(aut, pairs, fwd, w, av, j, len);
                let m = choose|m: int|
                    0 <= m < inbox_views(net1, j).len() && (if fwd {
                        bf_mem(post_img(pairs, #[trigger] inbox_views(net1, j)[m], len), x)
                    } else {
                        bf_mem(inbox_views(net1, j)[m], x) && copt(c, j, x)
                    });
                if j != w && m < net0.inboxes@[j]@.len() {
                    assert(net1.inboxes@[j]@[m] == net0.inboxes@[j]@[m]);
                    assert(inbox_views(net1, j)[m] == inbox_views(net0, j)[m]);
                    assert(cc[j][x]);
                    assert(bf_sub(cc[j], sc[j]));
                } else {
                    assert(!msg_empty(mj));
                    assert(m == net1.inboxes@[j]@.len() - 1);
                    assert(inbox_views(net1, j)[m] == mj);
                    if fwd {
                        assert(bf_mem(post_img(pairs, mj, len), x));
                        crate::partitioned::lemma_step_post_monotone(aut, pairs, va, sc, len);
                        assert(step_post(aut, pairs, va, len)[j] == post_img(
                            pairs,
                            gather_fwd(aut, va, j, len),
                            len,
                        ));
                        assert(bf_sub(step_post(aut, pairs, va, len)[j], step_post(aut, pairs, sc, len)[j]));
                        assert(step_post(aut, pairs, va, len)[j][x]);
                        assert(step_post(aut, pairs, sc, len)[j][x]);
                        assert(post_fp(aut, pairs, ff, sc, len));
                        assert(bf_sub(step_post(aut, pairs, sc, len)[j], sc[j]));
                    } else {
                        assert(bf_mem(mj, x) && copt(c, j, x));
                        assert(step_pre_at(aut, pairs, c, va, j, len)[x]);
                        crate::partitioned::lemma_step_pre_monotone(
                            aut,
                            pairs,
                            c,
                            va,
                            vf_or(ff, sc),
                            len,
                        );
                        assert(step_pre(aut, pairs, c, va, len)[j][x]);
                        assert(bf_sub(
                            step_pre(aut, pairs, c, va, len)[j],
                            step_pre(aut, pairs, c, vf_or(ff, sc), len)[j],
                        ));
                        assert(pre_fp(aut, pairs, c, ff, sc, len));
                        assert(bf_sub(step_pre(aut, pairs, c, vf_or(ff, sc), len)[j], sc[j]));
                    }
                }
            }
        }
    }
    // covering
    let vcc = single_at(aut.ns(), w, cc[w], len);
    let vrc = single_at(aut.ns(), w, bf_and(cc[w], rr[w]), len);
    assert(vcc =~~= vf_or(va, vrc));
    assert(uu1 =~~= vf_or(uu, vcc));
    assert forall|j: int| 0 <= j < ns implies ((#[trigger] uu[j]).len() == len && vcc[j].len()
        == len && vrc[j].len() == len) by {}
    if fwd {
        crate::partitioned::lemma_step_post_or(aut, pairs, uu, vcc, len);
        crate::partitioned::lemma_step_post_or(aut, pairs, va, vrc, len);
        assert(step_post(aut, pairs, uu1, len) == vf_or(
            step_post(aut, pairs, uu, len),
            step_post(aut, pairs, vcc, len),
        ));
        assert(step_post(aut, pairs, vcc, len) == vf_or(
            step_post(aut, pairs, va, len),
            step_post(aut, pairs, vrc, len),
        ));
    } else {
        crate::partitioned::lemma_step_pre_or(aut, pairs, c, uu, vcc, len);
        crate::partitioned::lemma_step_pre_or(aut, pairs, c, va, vrc, len);
        assert(step_pre(aut, pairs, c, uu1, len) == vf_or(
            step_pre(aut, pairs, c, uu, len),
            step_pre(aut, pairs, c, vcc, len),
        ));
        assert(step_pre(aut, pairs, c, vcc, len) == vf_or(
            step_pre(aut, pairs, c, va, len),
            step_pre(aut, pairs, c, vrc, len),
        ));
    }
    // the piece carried by the old reach
    assert forall|i: int| 0 <= i < ns implies bf_sub(#[trigger] vrc[i], uu[i]) by {
        assert(uu[i].len() == len);
        assert forall|x: int| 0 <= x < len && #[trigger] vrc[i][x] implies uu[i][x] by {
            assert(i == w);
            assert(rr[w][x]);
        }
    }
    if fwd {
        crate::partitioned::lemma_step_post_monotone(aut, pairs, vrc, uu, len);
    } else {
        crate::partitioned::lemma_step_pre_monotone(aut, pairs, c, vrc, uu, len);
    }
    assert forall|j: int| 0 <= j < ns implies bf_sub(
        #[trigger] net_step(aut, pairs, c, uu1, len, fwd)[j],
        vf_or(rr1, cc1)[j],
    ) by {
        assert forall|x: int|
            0 <= x < len && #[trigger] net_step(aut, pairs, c, uu1, len, fwd)[j][x] implies vf_or(
            rr1,
            cc1,
        )[j][x] by {
            let mj = msg_to(aut, pairs, fwd, w, av, j, len);
            assert(net_step(aut, pairs, c, uu, len, fwd)[j][x] || net_step(
                aut,
                pairs,
                c,
                va,
                len,
                fwd,
            )[j][x] || net_step(aut, pairs, c, vrc, len, fwd)[j][x]);
            if net_step(aut, pairs, c, uu, len, fwd)[j][x] || net_step(
                aut,
                pairs,
                c,
                vrc,
                len,
                fwd,
            )[j][x] {
                assert(bf_sub(net_step(aut, pairs, c, uu, len, fwd)[j], bf_or(rr[j], cc[j])));
                assert(bf_sub(net_step(aut, pairs, c, vrc, len, fwd)[j], net_step(aut, pairs, c, uu, len, fwd)[j]));
                assert(bf_or(rr[j], cc[j])[x]);
                assert(bf_sub(bf_or(rr[j], cc[j]), bf_or(rr1[j], cc1[j])));
            } else {
                // the single-slot update's round is exactly the message
                if fwd {
                    assert(step_post(aut, pairs, va, len)[j] == post_img(
                        pairs,
                        gather_fwd(aut, va, j, len),
                        len,
                    ));
                    assert(bf_mem(post_img(pairs, mj, len), x));
                    if msg_empty(mj) {
                        let kk = choose|kk: int|
                            0 <= kk < pairs.len() && (#[trigger] pairs[kk]).1 == x && bf_mem(
                                mj,
                                pairs[kk].0 as int,
                            );
                        assert(false);
                    }
                    assert(cc1[j][x]);
                } else {
                    assert(step_pre_at(aut, pairs, c, va, j, len)[x]);
                    assert(bf_mem(mj, x) && copt(c, j, x));
                    if msg_empty(mj) {
                        assert(false);
                    }
                    assert(cc1[j][x]);
                }
            }
        }
    }
    assert(net_cover(net1, aut, pairs, c, ff, len));
}

impl Network {
    /// Hand each slot its one message; empty messages are not sent.  Already
    /// waiting messages stay in place and the message count grows by the
    /// number of real sends.
    fn deliver(&mut self, out: &Vec<Bdd>, Ghost(len): Ghost<nat>)
        requires
            out@.len() == old(self).inboxes@.len(),
            forall|j: int|
                0 <= j < out@.len() ==> ((#[trigger] out@[j]).inv() && pow2(
                    out@[j].num_vars as nat,
                ) == len && out@[j]@.len() == len),
        ensures
            final(self).workers == old(self).workers,
            final(self).reaches == old(self).reaches,
            final(self).forward == old(self).forward,
            final(self).active == old(self).active,
            final(self).inboxes@.len() == old(self).inboxes@.len(),
            forall|j: int|
                0 <= j < old(self).inboxes@.len() ==> delivered(
                    old(self).inboxes@[j]@,
                    (#[trigger] final(self).inboxes@[j])@,
                    out@[j]@,
                    len,
                ),
    {
        let n = out.len();
        let mut j: usize = 0;
        while j < n
            invariant
                0 <= j <= n,
                n == out@.len(),
                n == old(self).inboxes@.len(),
                self.workers == old(self).workers,
                self.reaches == old(self).reaches,
                self.forward == old(self).forward,
                self.active == old(self).active,
                self.inboxes@.len() == n,
                forall|k: int|
                    0 <= k < n ==> ((#[trigger] out@[k]).inv() && pow2(out@[k].num_vars as nat)
                        == len && out@[k]@.len() == len),
                forall|k: int| j <= k < n ==> #[trigger] self.inboxes@[k] == old(self).inboxes@[k],
                forall|k: int|
                    0 <= k < j ==> delivered(
                        old(self).inboxes@[k]@,
                        (#[trigger] self.inboxes@[k])@,
                        out@[k]@,
                        len,
                    ),
            decreases n - j,
        {
            if !out[j].is_constant(false) {
                let msg = out[j].clone();
                let ghost gmsg = msg;
                self.inboxes[j].push(msg);
                proof {
                    assert(self.inboxes@[j as int]@.last() == gmsg);
                    assert(gmsg.inv() && gmsg@ == out@[j as int]@);
                    assert(pow2(gmsg.num_vars as nat) == len);
                    assert(!msg_empty(out@[j as int]@));
                    assert(delivered(
                        old(self).inboxes@[j as int]@,
                        self.inboxes@[j as int]@,
                        out@[j as int]@,
                        len,
                    ));
                }
            } else {
                proof {
                    assert(msg_empty(out@[j as int]@));
                }
            }
            j += 1;
        }
    }

    /// One worker consumes its whole inbox, computes one image, folds the
    /// genuinely new part into its reach set and hands each peer its gated
    /// contribution; the active counter moves by the number of sends minus
    /// the number of consumed messages.  Reach sets only grow, the soundness
    /// and covering laws survive, and each step either grows some reach set
    /// or strictly shrinks the number of unconsumed messages.
    #[verifier::rlimit(100)]
    #[verifier::spinoff_prover]
    fn step_worker(
        &mut self,
        w: usize,
        Ghost(aut): Ghost<BuchiAutomata>,
        Ghost(pairs): Ghost<Seq<(u64, u64)>>,
        Ghost(c): Ghost<Option<Seq<Seq<bool>>>>,
        Ghost(ff): Ghost<Seq<Seq<bool>>>,
        Ghost(len): Ghost<nat>,
    )
        requires
            aut.inv(),
            ff.len() == aut.ns(),
            vf_wf(ff, len),
            net_wf(*old(self), aut, pairs, c, len),
            net_sound(*old(self), aut, pairs, c, ff, len),
            net_cover(*old(self), aut, pairs, c, ff, len),
            w < old(self).inboxes@.len(),
            old(self).inboxes@[w as int]@.len() > 0,
        ensures
            net_wf(*final(self), aut, pairs, c, len),
            net_sound(*final(self), aut, pairs, c, ff, len),
            net_cover(*final(self), aut, pairs, c, ff, len),
            final(self).workers == old(self).workers,
            final(self).forward == old(self).forward,
            vf_sub(net_reaches(*old(self)), net_reaches(*final(self))),
            sum_count(net_reaches(*final(self))) > sum_count(net_reaches(*old(self))) || (
            net_reaches(*final(self)) == net_reaches(*old(self)) && pending(final(self).inboxes@)
                < pending(old(self).inboxes@)),
    {
        let ghost net0 = *self;
        let ghost rr = net_reaches(net0);
        let ghost cc = covers(net0, pairs, c, aut.ns(), len);
        let msgs = copy_msgs(&self.inboxes[w]);
        self.inboxes[w] = Vec::new();
        let ghost k = msgs@.len();
        proof {
            lemma_pending_update(net0.inboxes@, w as int, self.inboxes@[w as int]);
            assert(pending(self.inboxes@) + k == pending(net0.inboxes@));
        }
        let u = fold_messages(&self.workers[w].manager, &msgs);
        proof {
            lemma_pow2_inj(
                self.workers@[w as int].manager.num_vars as nat,
                self.workers@[w as int].fsm.num_vars as nat,
            );
        }
        let a: Bdd;
        if self.forward {
            let img = self.workers[w].fsm.post_image(&u);
            a = img.diff(&self.reaches[w]);
        } else {
            let m1 = u.diff(&self.reaches[w]);
            a = match &self.workers[w].constraint {
                Option::Some(cb) => m1.and(cb),
                Option::None => m1,
            };
        }
        let nr = self.reaches[w].or(&a);
        self.reaches[w] = nr;
        proof {
            // the drained inbox covered exactly what the new reach absorbs,
            // and `a` is the genuinely new part of that cover
            assert(views(msgs@) == inbox_views(net0, w as int));
            assert forall|e2: int|
                0 <= e2 < inbox_views(net0, w as int).len() implies (#[trigger] inbox_views(
                net0,
                w as int,
            )[e2]).len() == len by {
                assert(net0.inboxes@[w as int]@[e2].inv());
                assert(net0.inboxes@[w as int]@[e2].num_vars
                    == net0.workers@[w as int].manager.num_vars);
            }
            lemma_fold_cover_post(pairs, inbox_views(net0, w as int), len);
            assert(cc[w as int] == cover_at(net0, pairs, c, w as int, len));
            assert forall|x: int| 0 <= x < len implies (nr@[x] == bf_or(rr[w as int], cc[w as int])[x]
                && a@[x] == (cc[w as int][x] && !rr[w as int][x])) by {
                if self.forward {
                    assert(cc[w as int][x] == bf_mem(
                        post_img(pairs, fold_msgs(inbox_views(net0, w as int), len), len),
                        x,
                    ));
                } else {
                    assert(cc[w as int][x] == (bf_mem(
                        fold_msgs(inbox_views(net0, w as int), len),
                        x,
                    ) && copt(c, w as int, x)));
                }
            }
            assert(nr@ =~= bf_or(rr[w as int], cc[w as int]));
            assert(a@ =~= bf_diff(cc[w as int], rr[w as int]));
            assert(net_reaches(*self)[w as int] == nr@);
            assert forall|j: int| 0 <= j < aut.ns() && j != w implies net_reaches(*self)[j]
                == rr[j] by {}
        }
        let ghost mid = *self;
        let n = self.inboxes.len();
        let out = self.workers[w].sends(
            n,
            self.forward,
            &a,
            Ghost(aut),
            Ghost(pairs),
            Ghost(c),
            Ghost(len),
        );
        proof {
            assert forall|j: int| 0 <= j < n implies ((#[trigger] out@[j]).inv() && pow2(
                out@[j].num_vars as nat,
            ) == len && out@[j]@.len() == len) by {
                assert(out@[j].owned_by(net0.workers@[w as int].manager));
            }
        }
        self.deliver(&out, Ghost(len));
        self.active = Ghost(pending(self.inboxes@));
        proof {
            let net1 = *self;
            let rr1 = net_reaches(net1);
            assert(rr1 =~~= net_reaches(mid));
            assert forall|j: int| 0 <= j < aut.ns() && j != w implies delivered(
                net0.inboxes@[j]@,
                (#[trigger] net1.inboxes@[j])@,
                msg_to(aut, pairs, net0.forward, w as int, a@, j, len),
                len,
            ) by {
                assert(mid.inboxes@[j] == net0.inboxes@[j]);
                assert(out@[j]@ == msg_to(aut, pairs, net0.forward, w as int, a@, j, len));
            }
            assert(mid.inboxes@[w as int]@ == Seq::<Bdd>::empty());
            assert(delivered(
                Seq::<Bdd>::empty(),
                net1.inboxes@[w as int]@,
                msg_to(aut, pairs, net0.forward, w as int, a@, w as int, len),
                len,
            ));
            lemma_net_round(net0, net1, aut, pairs, c, ff, len, w as int, a@);
            // reach sets only grow
            assert forall|j: int| 0 <= j < aut.ns() implies bf_sub(#[trigger] rr[j], rr1[j]) by {
                assert(rr1[j].len() == rr[j].len());
            }
            // the measure: either something genuinely new was reached, or
            // only consumption happened and the message count fell
            if exists|x: int| 0 <= x < a@.len() && a@[x] {
                let x = choose|x: int| 0 <= x < a@.len() && a@[x];
                assert(rr1[w as int][x] && !rr[w as int][x]);
                lemma_sum_count_lt(rr, rr1, w as int, x);
            } else {
                assert forall|x: int| 0 <= x < len implies rr1[w as int][x] == rr[w as int][x] by {
                    assert(!a@[x]);
                }
                assert(rr1[w as int] =~= rr[w as int]);
                assert(rr1 =~~= rr);
                assert forall|j: int|
                    0 <= j < net1.inboxes@.len() implies (#[trigger] net1.inboxes@[j])@.len()
                    == mid.inboxes@[j]@.len() by {
                    let mj = msg_to(aut, pairs, net0.forward, w as int, a@, j, len);
                    assert(msg_empty(out@[j]@));
                    assert(delivered(mid.inboxes@[j]@, net1.inboxes@[j]@, mj, len));
                    assert(net1.inboxes@[j]@ == mid.inboxes@[j]@);
                }
                lemma_pending_same_lens(net1.inboxes@, mid.inboxes@);
                assert(pending(net1.inboxes@) == pending(net0.inboxes@) - k);
            }
        }
    }
}

/// When every inbox is empty, nothing is pending.
proof fn lemma_pending_empty(bs: Seq<Vec<Bdd>>)
    requires
        forall|j: int| 0 <= j < bs.len() ==> (#[trigger] bs[j])@.len() == 0,
    ensures
        pending(bs) == 0,
    decreases bs.len(),
{
    if bs.len() > 0 {
        assert forall|j: int| 0 <= j < bs.drop_last().len() implies (
        #[trigger] bs.drop_last()[j])@.len() == 0 by {
            assert(bs[j]@.len() == 0);
        }
        lemma_pending_empty(bs.drop_last());
        assert(bs.last()@.len() == 0);
    }
}

/// A partial seed: the first `i` slots of `ff`, nothing elsewhere.
pub open spec fn seed_upto(ff: Seq<Seq<bool>>, i: int, len: nat) -> Seq<Seq<bool>> {
    Seq::new(
        ff.len(),
        |k: int|
            if k < i {
                ff[k]
            } else {
                bf_const(len, false)
            },
    )
}

/// One round of the all-empty vector reaches nothing.
proof fn lemma_step_empty(
    aut: BuchiAutomata,
    pairs: Seq<(u64, u64)>,
    c: Option<Seq<Seq<bool>>>,
    len: nat,
    forward: bool,
    zf: Seq<Seq<bool>>,
)
    requires
        zf.len() == aut.ns(),
        forall|j: int, x: int| 0 <= j < zf.len() && 0 <= x < zf[j].len() ==> !(#[trigger] zf[j][x]),
    ensures
        forall|j: int, x: int|
            0 <= j < aut.ns() && 0 <= x < len ==> !(#[trigger] net_step(
                aut,
                pairs,
                c,
                zf,
                len,
                forward,
            )[j][x]),
{
    assert forall|j: int, x: int|
        0 <= j < aut.ns() && 0 <= x < len implies !(#[trigger] net_step(aut, pairs, c, zf, len, forward)[j][x]) by {
        if net_step(aut, pairs, c, zf, len, forward)[j][x] {
            if forward {
                let kk = choose|kk: int|
                    0 <= kk < pairs.len() && (#[trigger] pairs[kk]).1 == x && bf_mem(
                        gather_fwd(aut, zf, j, len),
                        pairs[kk].0 as int,
                    );
                let y = pairs[kk].0 as int;
                let (i2, e2) = choose|i2: int, e2: int|
                    0 <= i2 < aut.ns() && 0 <= e2 < aut.forward@[i2]@.len() && (
                    #[trigger] aut.forward@[i2]@[e2]).0 == j && bf_mem(zf[i2], y) && bf_mem(
                        aut.forward@[i2]@[e2].1@,
                        y,
                    );
                assert(false);
            } else {
                assert(step_pre_at(aut, pairs, c, zf, j, len)[x]);
                let (i2, e2) = choose|i2: int, e2: int|
                    0 <= i2 < aut.ns() && 0 <= e2 < aut.backward@[i2]@.len() && (
                    #[trigger] aut.backward@[i2]@[e2]).0 == j && bf_mem(
                        pre_img(pairs, zf[i2], len),
                        x,
                    ) && bf_mem(aut.backward@[i2]@[e2].1@, x);
                let kk = choose|kk: int|
                    0 <= kk < pairs.len() && (#[trigger] pairs[kk]).0 == x && bf_mem(
                        zf[i2],
                        pairs[kk].1 as int,
                    );
                assert(false);
            }
        }
    }
}

/// The seeding law: worker `i` has handed each peer the contribution of its
/// slot of the start vector.  Soundness survives, and the covering law now
/// accounts for one more seeded slot.
#[verifier::rlimit(100)]
#[verifier::spinoff_prover]
proof fn lemma_net_seed(
    net0: Network,
    net1: Network,
    aut: BuchiAutomata,
    pairs: Seq<(u64, u64)>,
    c: Option<Seq<Seq<bool>>>,
    ff: Seq<Seq<bool>>,
    len: nat,
    i: int,
)
    requires
        aut.inv(),
        ff.len() == aut.ns(),
        vf_wf(ff, len),
        net_struct(net0, aut, pairs, c, len),
        net_sound(net0, aut, pairs, c, ff, len),
        vf_sub(
            net_step(
                aut,
                pairs,
                c,
                vf_or(seed_upto(ff, i, len), net_reaches(net0)),
                len,
                net0.forward,
            ),
            vf_or(net_reaches(net0), covers(net0, pairs, c, aut.ns(), len)),
        ),
        0 <= i < aut.ns(),
        net1.forward == net0.forward,
        net1.workers == net0.workers,
        net1.reaches == net0.reaches,
        net1.inboxes@.len() == aut.ns(),
        forall|j: int|
            0 <= j < aut.ns() ==> delivered(
                net0.inboxes@[j]@,
                (#[trigger] net1.inboxes@[j])@,
                msg_to(aut, pairs, net0.forward, i, ff[i], j, len),
                len,
            ),
    ensures
        net_struct(net1, aut, pairs, c, len),
        net_sound(net1, aut, pairs, c, ff, len),
        vf_sub(
            net_step(
                aut,
                pairs,
                c,
                vf_or(seed_upto(ff, i + 1, len), net_reaches(net1)),
                len,
                net1.forward,
            ),
            vf_or(net_reaches(net1), covers(net1, pairs, c, aut.ns(), len)),
        ),
{
    let ns = aut.ns() as int;
    let fwd = net0.forward;
    let rr = net_reaches(net0);
    let cc = covers(net0, pairs, c, aut.ns(), len);
    let rr1 = net_reaches(net1);
    let cc1 = covers(net1, pairs, c, aut.ns(), len);
    let sv = ff[i];
    let vs = single_at(aut.ns(), i, sv, len);
    let u0 = vf_or(seed_upto(ff, i, len), rr);
    let u1 = vf_or(seed_upto(ff, i + 1, len), rr1);
    assert(rr1 =~~= rr);
    assert forall|j: int| 0 <= j < ns implies ((#[trigger] rr[j]).len() == len && cc[j].len()
        == len && cc1[j].len() == len && vs[j].len() == len) by {
        assert(net0.reaches@[j].inv());
        assert(pow2(net0.workers@[j].manager.num_vars as nat) == len);
    }
    // structure: old messages kept, the one new message per slot well formed
    assert forall|j: int, m: int|
        0 <= j < net1.inboxes@.len() && 0 <= m < net1.inboxes@[j]@.len() implies ((
    #[trigger] net1.inboxes@[j]@[m]).inv() && net1.inboxes@[j]@[m].num_vars
        == net1.workers@[j].manager.num_vars) by {
        let mj = msg_to(aut, pairs, fwd, i, sv, j, len);
        if m < net0.inboxes@[j]@.len() {
            assert(net1.inboxes@[j]@[m] == net0.inboxes@[j]@[m]);
            assert(net0.inboxes@[j]@[m].inv());
        } else {
            assert(!msg_empty(mj));
            assert(m == net1.inboxes@[j]@.len() - 1);
            lemma_pow2_inj(
                net1.inboxes@[j]@[m].num_vars as nat,
                net0.workers@[j].manager.num_vars as nat,
            );
        }
    }
    assert(net_struct(net1, aut, pairs, c, len));
    // old covers survive
    assert forall|j: int| 0 <= j < ns implies bf_sub(#[trigger] cc[j], cc1[j]) by {
        assert forall|x: int| 0 <= x < len && #[trigger] cc[j][x] implies cc1[j][x] by {
            let m = choose|m: int|
                0 <= m < inbox_views(net0, j).len() && (if fwd {
                    bf_mem(post_img(pairs, #[trigger] inbox_views(net0, j)[m], len), x)
                } else {
                    bf_mem(inbox_views(net0, j)[m], x) && copt(c, j, x)
                });
            assert(net1.inboxes@[j]@[m] == net0.inboxes@[j]@[m]);
            assert(inbox_views(net1, j)[m] == inbox_views(net0, j)[m]);
            assert(cc1[j][x]);
        }
    }
    // the new message's cover is available
    assert forall|j: int, x: int|
        0 <= j < ns && 0 <= x < len && !msg_empty(msg_to(aut, pairs, fwd, i, sv, j, len)) && (
        if fwd {
            bf_mem(post_img(pairs, msg_to(aut, pairs, fwd, i, sv, j, len), len), x)
        } else {
            bf_mem(msg_to(aut, pairs, fwd, i, sv, j, len), x) && copt(c, j, x)
        }) implies #[trigger] cc1[j][x] by {
        let mj = msg_to(aut, pairs, fwd, i, sv, j, len);
        let last = net1.inboxes@[j]@.len() - 1;
        assert(net1.inboxes@[j]@.last()@ == mj);
        assert(inbox_views(net1, j)[last] == mj);
        assert(cover_at(net1, pairs, c, j, len)[x]);
    }
    // soundness: the seeded slot sits inside every closed vector
    assert forall|sc: Seq<Seq<bool>>|
        #[trigger] net_closed(aut, pairs, c, ff, sc, len, net1.forward) implies vf_sub(rr1, sc)
        && vf_sub(cc1, sc) by {
        lemma_closed_shape(aut, pairs, c, ff, sc, len, fwd);
        assert(vf_sub(rr, sc) && vf_sub(cc, sc));
        assert forall|j: int| 0 <= j < ns implies bf_sub(#[trigger] rr1[j], sc[j]) by {
            assert(bf_sub(rr[j], sc[j]));
            assert(rr1[j] == rr[j]);
        }
        assert forall|k: int| 0 <= k < ns implies bf_sub(#[trigger] vs[k], vf_or(ff, sc)[k]) by {
            assert(vf_or(ff, sc)[k].len() == len);
            assert forall|x: int| 0 <= x < len && #[trigger] vs[k][x] implies vf_or(ff, sc)[k][x] by {
                assert(k == i);
                assert(ff[i][x]);
            }
        }
        if fwd {
            assert forall|k: int| 0 <= k < ns implies bf_sub(#[trigger] vs[k], sc[k]) by {
                assert(vf_sub(ff, sc));
                assert(bf_sub(ff[k], sc[k]));
                assert forall|x: int| 0 <= x < len && #[trigger] vs[k][x] implies sc[k][x] by {
                    assert(k == i);
                    assert(ff[i][x]);
                }
            }
        }
        assert forall|j: int| 0 <= j < ns implies bf_sub(#[trigger] cc1[j], sc[j]) by {
            assert forall|x: int| 0 <= x < len && #[trigger] cc1[j][x] implies sc[j][x] by {
                let mj = msg_to(aut, pairs, fwd, i, sv, j, len);
                let m = choose|m: int|
                    0 <= m < inbox_views(net1, j).len() && (if fwd {
                        bf_mem(post_img(pairs, #[trigger] inbox_views(net1, j)[m], len), x)
                    } else {
                        bf_mem(inbox_views(net1, j)[m], x) && copt(c, j, x)
                    });
                if m < net0.inboxes@[j]@.len() {
                    assert(net1.inboxes@[j]@[m] == net0.inboxes@[j]@[m]);
                    assert(inbox_views(net1, j)[m] == inbox_views(net0, j)[m]);
                    assert(cc[j][x]);
                    assert(bf_sub(cc[j], sc[j]));
                } else {
                    assert(!msg_empty(mj));
                    assert(m == net1.inboxes@[j]@.len() - 1);
                    assert(inbox_views(net1, j)[m] == mj);
                    if fwd {
                        assert(bf_mem(post_img(pairs, mj, len), x));
                        crate::partitioned::lemma_step_post_monotone(aut, pairs, vs, sc, len);
                        assert(step_post(aut, pairs, vs, len)[j] == post_img(
                            pairs,
                            gather_fwd(aut, vs, j, len),
                            len,
                        ));
                        assert(step_post(aut, pairs, vs, len)[j][x]);
                        assert(bf_sub(step_post(aut, pairs, vs, len)[j], step_post(aut, pairs, sc, len)[j]));
                        assert(post_fp(aut, pairs, ff, sc, len));
                        assert(bf_sub(step_post(aut, pairs, sc, len)[j], sc[j]));
                    } else {
                        assert(bf_mem(mj, x) && copt(c, j, x));
                        assert(step_pre_at(aut, pairs, c, vs, j, len)[x]);
                        crate::partitioned::lemma_step_pre_monotone(
                            aut,
                            pairs,
                            c,
                            vs,
                            vf_or(ff, sc),
                            len,
                        );
                        assert(step_pre(aut, pairs, c, vs, len)[j][x]);
                        assert(bf_sub(
                            step_pre(aut, pairs, c, vs, len)[j],
                            step_pre(aut, pairs, c, vf_or(ff, sc), len)[j],
                        ));
                        assert(pre_fp(aut, pairs, c, ff, sc, len));
                        assert(bf_sub(step_pre(aut, pairs, c, vf_or(ff, sc), len)[j], sc[j]));
                    }
                }
            }
        }
    }
    // covering: one more slot of the seed is accounted for
    assert(u1 =~~= vf_or(u0, vs));
    assert forall|j: int| 0 <= j < ns implies ((#[trigger] u0[j]).len() == len) by {}
    if fwd {
        crate::partitioned::lemma_step_post_or(aut, pairs, u0, vs, len);
        assert(step_post(aut, pairs, u1, len) == vf_or(
            step_post(aut, pairs, u0, len),
            step_post(aut, pairs, vs, len),
        ));
    } else {
        crate::partitioned::lemma_step_pre_or(aut, pairs, c, u0, vs, len);
        assert(step_pre(aut, pairs, c, u1, len) == vf_or(
            step_pre(aut, pairs, c, u0, len),
            step_pre(aut, pairs, c, vs, len),
        ));
    }
    assert forall|j: int| 0 <= j < ns implies bf_sub(
        #[trigger] net_step(aut, pairs, c, u1, len, fwd)[j],
        vf_or(rr1, cc1)[j],
    ) by {
        assert forall|x: int|
            0 <= x < len && #[trigger] net_step(aut, pairs, c, u1, len, fwd)[j][x] implies vf_or(
            rr1,
            cc1,
        )[j][x] by {
            let mj = msg_to(aut, pairs, fwd, i, sv, j, len);
            assert(net_step(aut, pairs, c, u0, len, fwd)[j][x] || net_step(
                aut,
                pairs,
                c,
                vs,
                len,
                fwd,
            )[j][x]);
            if net_step(aut, pairs, c, u0, len, fwd)[j][x] {
                assert(bf_sub(net_step(aut, pairs, c, u0, len, fwd)[j], vf_or(rr, cc)[j]));
                assert(vf_or(rr, cc)[j][x]);
                assert(rr[j][x] || cc[j][x]);
                if rr[j][x] {
                    assert(rr1[j][x]);
                } else {
                    assert(bf_sub(cc[j], cc1[j]));
                }
            } else {
                if fwd {
                    assert(step_post(aut, pairs, vs, len)[j] == post_img(
                        pairs,
                        gather_fwd(aut, vs, j, len),
                        len,
                    ));
                    assert(bf_mem(post_img(pairs, mj, len), x));
                    if msg_empty(mj) {
                        let kk = choose|kk: int|
                            0 <= kk < pairs.len() && (#[trigger] pairs[kk]).1 == x && bf_mem(
                                mj,
                                pairs[kk].0 as int,
                            );
                        assert(false);
                    }
                    assert(cc1[j][x]);
                } else {
                    assert(step_pre_at(aut, pairs, c, vs, j, len)[x]);
                    assert(bf_mem(mj, x) && copt(c, j, x));
                    if msg_empty(mj) {
                        assert(false);
                    }
                    assert(cc1[j][x]);
                }
            }
        }
    }
}

impl Network {
    /// Run the termination-detection protocol to quiescence: while some
    /// inbox holds a message, let its worker consume its batch.  When the
    /// active counter reaches zero no message is left unconsumed anywhere,
    /// every worker's reach set is final, and the soundness and covering
    /// laws still hold — so the reach sets are the round fixpoint.
    pub fn run(
        &mut self,
        Ghost(aut): Ghost<BuchiAutomata>,
        Ghost(pairs): Ghost<Seq<(u64, u64)>>,
        Ghost(c): Ghost<Option<Seq<Seq<bool>>>>,
        Ghost(ff): Ghost<Seq<Seq<bool>>>,
        Ghost(len): Ghost<nat>,
    )
        requires
            aut.inv(),
            ff.len() == aut.ns(),
            vf_wf(ff, len),
            net_wf(*old(self), aut, pairs, c, len),
            net_sound(*old(self), aut, pairs, c, ff, len),
            net_cover(*old(self), aut, pairs, c, ff, len),
        ensures
            net_wf(*final(self), aut, pairs, c, len),
            net_sound(*final(self), aut, pairs, c, ff, len),
            net_cover(*final(self), aut, pairs, c, ff, len),
            final(self).workers == old(self).workers,
            final(self).forward == old(self).forward,
            vf_sub(net_reaches(*old(self)), net_reaches(*final(self))),
            final(self).active@ == 0,
            forall|j: int|
                0 <= j < final(self).inboxes@.len() ==> (#[trigger] final(self).inboxes@[j])@.len()
                    == 0,
    {
        loop
            invariant
                aut.inv(),
                ff.len() == aut.ns(),
                vf_wf(ff, len),
                net_wf(*self, aut, pairs, c, len),
                net_sound(*self, aut, pairs, c, ff, len),
                net_cover(*self, aut, pairs, c, ff, len),
                self.workers == old(self).workers,
                self.forward == old(self).forward,
                vf_sub(net_reaches(*old(self)), net_reaches(*self)),
            ensures
                net_wf(*self, aut, pairs, c, len),
                net_sound(*self, aut, pairs, c, ff, len),
                net_cover(*self, aut, pairs, c, ff, len),
                self.workers == old(self).workers,
                self.forward == old(self).forward,
                vf_sub(net_reaches(*old(self)), net_reaches(*self)),
                self.active@ == 0,
                forall|j: int|
                    0 <= j < self.inboxes@.len() ==> (#[trigger] self.inboxes@[j])@.len() == 0,
            decreases aut.ns() * len - sum_count(net_reaches(*self)), pending(self.inboxes@),
        {
            let n = self.inboxes.len();
            let mut w: usize = 0;
            while w < n
                invariant
                    0 <= w <= n,
                    n == self.inboxes@.len(),
                    forall|j: int| 0 <= j < w ==> (#[trigger] self.inboxes@[j])@.len() == 0,
                ensures
                    0 <= w <= n,
                    n == self.inboxes@.len(),
                    forall|j: int| 0 <= j < w ==> (#[trigger] self.inboxes@[j])@.len() == 0,
                    w < n ==> self.inboxes@[w as int]@.len() > 0,
                decreases n - w,
            {
                if self.inboxes[w].len() > 0 {
                    break;
                }
                w += 1;
            }
            if w == n {
                proof {
                    lemma_pending_empty(self.inboxes@);
                    assert(self.active@ == 0);
                }
                break;
            }
            let ghost before = *self;
            self.step_worker(w, Ghost(aut), Ghost(pairs), Ghost(c), Ghost(ff), Ghost(len));
            proof {
                crate::bdd::lemma_vf_sub_trans(
                    net_reaches(*old(self)),
                    net_reaches(before),
                    net_reaches(*self),
                );
                assert forall|j: int|
                    0 <= j < net_reaches(*self).len() implies (#[trigger] net_reaches(*self)[j]).len()
                    == len by {
                    assert(self.reaches@[j].inv());
                    assert(pow2(self.workers@[j].manager.num_vars as nat) == len);
                }
                lemma_sum_count_bound(net_reaches(*self), len);
            }
        }
    }
}

impl PartitionedSmc {
    /// The partitioned run: one worker per automaton state, each with its
    /// own manager, exchanging contributions through inboxes until the
    /// termination-detection protocol observes quiescence, then every
    /// worker's reach set is translocated back into the home manager.  A
    /// forward run computes the states reachable from the seed in one or
    /// more rounds (together with the seed, the forward fixpoint); a
    /// backward run computes exactly the constrained backward fixpoint, as
    /// the sequential engine does.
    pub fn parallel_reachable_state(
        &mut self,
        from: &Vec<Bdd>,
        forward: bool,
        constraint: Option<&Vec<Bdd>>,
    ) -> (r: Vec<Bdd>)
        requires
            old(self).inv(),
            old(self).vec_ok(from@),
            match constraint {
                Option::None => true,
                Option::Some(cv) => old(self).vec_ok(cv@),
            },
        ensures
            final(self).inv(),
            final(self).manager == old(self).manager,
            final(self).fsm == old(self).fsm,
            final(self).automata == old(self).automata,
            final(self).args == old(self).args,
            final(self).vec_ok(r@),
            forward ==> is_post_lfp(
                old(self).automata,
                old(self).fsm.pairs@,
                views(from@),
                vf_or(views(from@), views(r@)),
                old(self).len(),
            ),
            !forward ==> is_pre_lfp(
                old(self).automata,
                old(self).fsm.pairs@,
                opt_views(constraint),
                views(from@),
                views(r@),
                old(self).len(),
            ),
    {
        let ghost aut = self.automata;
        let ghost pairs = self.fsm.pairs@;
        let ghost c = opt_views(constraint);
        let ghost ff = views(from@);
        let ghost len = self.len();
        let workers = Worker::create_workers(self, constraint);
        let n = self.automata.num_state();
        let mut reaches: Vec<Bdd> = Vec::new();
        let mut inboxes: Vec<Vec<Bdd>> = Vec::new();
        let mut i: usize = 0;
        while i < n
            invariant
                0 <= i <= n,
                self.inv(),
                n == self.ns(),
                workers@.len() == n,
                forall|k: int|
                    0 <= k < n ==> (#[trigger] workers@[k]).wf(aut, pairs, c, len) && workers@[k].id
                        == k,
                aut == self.automata,
                pairs == self.fsm.pairs@,
                len == self.len(),
                reaches@.len() == i,
                inboxes@.len() == i,
                forall|k: int|
                    0 <= k < i ==> ((#[trigger] reaches@[k]).inv() && reaches@[k].owned_by(
                        workers@[k].manager,
                    ) && reaches@[k]@ == bf_const(len, false)),
                forall|k: int| 0 <= k < i ==> (#[trigger] inboxes@[k])@.len() == 0,
            decreases n - i,
        {
            let wm = Manager { id: workers[i].manager.id, num_vars: workers[i].manager.num_vars };
            reaches.push(wm.constant(false));
            inboxes.push(Vec::new());
            i += 1;
        }
        let mut net = Network { workers, reaches, inboxes, active: Ghost(0nat), forward };
        proof {
            lemma_pending_empty(net.inboxes@);
            assert(net_wf(net, aut, pairs, c, len));
            lemma_vec_ok_wf(*self, from@);
            // nothing is reached, nothing is pending, nothing is seeded:
            // every law holds vacuously
            assert forall|j: int, x: int|
                0 <= j < net_reaches(net).len() && 0 <= x < net_reaches(net)[j].len() implies !(
            #[trigger] net_reaches(net)[j][x]) by {
                assert(net.reaches@[j]@ == bf_const(len, false));
            }
            assert forall|j: int, x: int|
                0 <= j < aut.ns() && 0 <= x < len implies !(#[trigger] covers(
                net,
                pairs,
                c,
                aut.ns(),
                len,
            )[j][x]) by {
                if covers(net, pairs, c, aut.ns(), len)[j][x] {
                    let m = choose|m: int|
                        0 <= m < inbox_views(net, j).len() && (if net.forward {
                            bf_mem(post_img(pairs, #[trigger] inbox_views(net, j)[m], len), x)
                        } else {
                            bf_mem(inbox_views(net, j)[m], x) && copt(c, j, x)
                        });
                    assert(false);
                }
            }
            assert forall|sc: Seq<Seq<bool>>|
                #[trigger] net_closed(aut, pairs, c, ff, sc, len, net.forward) implies vf_sub(
                net_reaches(net),
                sc,
            ) && vf_sub(covers(net, pairs, c, aut.ns(), len), sc) by {
                lemma_closed_shape(aut, pairs, c, ff, sc, len, forward);
                assert forall|j: int| 0 <= j < aut.ns() implies bf_sub(
                    #[trigger] net_reaches(net)[j],
                    sc[j],
                ) && bf_sub(covers(net, pairs, c, aut.ns(), len)[j], sc[j]) by {
                    assert(net.reaches@[j]@ == bf_const(len, false));
                    assert(sc[j].len() == len);
                }
            }
            let u0 = vf_or(seed_upto(ff, 0, len), net_reaches(net));
            assert forall|j: int, x: int|
                0 <= j < u0.len() && 0 <= x < u0[j].len() implies !(#[trigger] u0[j][x]) by {
                assert(net.reaches@[j]@ == bf_const(len, false));
            }
            lemma_step_empty(aut, pairs, c, len, forward, u0);
            assert forall|j: int| 0 <= j < aut.ns() implies bf_sub(
                #[trigger] net_step(aut, pairs, c, u0, len, forward)[j],
                vf_or(net_reaches(net), covers(net, pairs, c, aut.ns(), len))[j],
            ) by {
                assert(vf_or(net_reaches(net), covers(net, pairs, c, aut.ns(), len))[j].len()
                    == len);
            }
        }
        // each worker seeds the run with its slot of the start vector
        let mut i: usize = 0;
        while i < n
            invariant
                0 <= i <= n,
                self.inv(),
                self.vec_ok(from@),
                match constraint {
                    Option::None => true,
                    Option::Some(cv) => self.vec_ok(cv@),
                },
                n == self.ns(),
                aut == self.automata,
                pairs == self.fsm.pairs@,
                c == opt_views(constraint),
                ff == views(from@),
                ff.len() == aut.ns(),
                vf_wf(ff, len),
                aut.inv(),
                len == self.len(),
                net.forward == forward,
                net_wf(net, aut, pairs, c, len),
                net_sound(net, aut, pairs, c, ff, len),
                vf_sub(
                    net_step(
                        aut,
                        pairs,
                        c,
                        vf_or(seed_upto(ff, i as int, len), net_reaches(net)),
                        len,
                        forward,
                    ),
                    vf_or(net_reaches(net), covers(net, pairs, c, aut.ns(), len)),
                ),
                net.workers@.len() == n,
                forall|k: int|
                    0 <= k < n ==> (#[trigger] net.workers@[k]).wf(aut, pairs, c, len)
                        && net.workers@[k].id == k,
            decreases n - i,
        {
            proof {
                assert(net.workers@[i as int].wf(aut, pairs, c, len));
                lemma_pow2_inj(
                    net.workers@[i as int].manager.num_vars as nat,
                    self.manager.num_vars as nat,
                );
            }
            let m0 = net.workers[i].manager.translocate(&from[i]);
            let out = net.workers[i].sends(
                n,
                forward,
                &m0,
                Ghost(aut),
                Ghost(pairs),
                Ghost(c),
                Ghost(len),
            );
            proof {
                assert forall|j: int| 0 <= j < n implies ((#[trigger] out@[j]).inv() && pow2(
                    out@[j].num_vars as nat,
                ) == len && out@[j]@.len() == len) by {
                    assert(out@[j].owned_by(net.workers@[i as int].manager));
                }
            }
            let ghost before = net;
            net.deliver(&out, Ghost(len));
            net.active = Ghost(pending(net.inboxes@));
            proof {
                assert(m0@ == ff[i as int]);
                assert forall|j: int| 0 <= j < aut.ns() implies delivered(
                    before.inboxes@[j]@,
                    (#[trigger] net.inboxes@[j])@,
                    msg_to(aut, pairs, forward, i as int, ff[i as int], j, len),
                    len,
                ) by {
                    assert(out@[j]@ == msg_to(aut, pairs, forward, i as int, m0@, j, len));
                }
                lemma_net_seed(before, net, aut, pairs, c, ff, len, i as int);
            }
            i += 1;
        }
        proof {
            assert(seed_upto(ff, n as int, len) =~~= ff);
            assert(net_cover(net, aut, pairs, c, ff, len));
        }
        // run to quiescence: at counter zero no message is left unconsumed
        net.run(Ghost(aut), Ghost(pairs), Ghost(c), Ghost(ff), Ghost(len));
        // collect the workers' reach sets into the home manager
        let mut r: Vec<Bdd> = Vec::new();
        let mut j: usize = 0;
        while j < n
            invariant
                0 <= j <= n,
                self.inv(),
                n == self.ns(),
                len == self.len(),
                net_wf(net, aut, pairs, c, len),
                net.reaches@.len() == n,
                r@.len() == j,
                forall|k: int|
                    0 <= k < j ==> ((#[trigger] r@[k]).inv() && r@[k].mgr == self.manager.id
                        && r@[k].num_vars == self.manager.num_vars && r@[k]@ == net.reaches@[k]@),
            decreases n - j,
        {
            proof {
                assert(net.reaches@[j as int].inv());
                assert(pow2(net.workers@[j as int].manager.num_vars as nat) == len);
                lemma_pow2_inj(
                    net.workers@[j as int].manager.num_vars as nat,
                    self.manager.num_vars as nat,
                );
            }
            let b = self.manager.translocate(&net.reaches[j]);
            r.push(b);
            j += 1;
        }
        proof {
            let rv = net_reaches(net);
            assert(views(r@) =~~= rv);
            lemma_vec_ok_wf(*self, from@);
            lemma_vec_ok_wf(*self, r@);
            // at quiescence the covers are gone: the covering law collapses
            // to closedness and soundness to minimality
            assert forall|j2: int, x: int|
                0 <= j2 < aut.ns() && 0 <= x < len implies !(#[trigger] covers(
                net,
                pairs,
                c,
                aut.ns(),
                len,
            )[j2][x]) by {
                if covers(net, pairs, c, aut.ns(), len)[j2][x] {
                    let m = choose|m: int|
                        0 <= m < inbox_views(net, j2).len() && (if net.forward {
                            bf_mem(post_img(pairs, #[trigger] inbox_views(net, j2)[m], len), x)
                        } else {
                            bf_mem(inbox_views(net, j2)[m], x) && copt(c, j2, x)
                        });
                    assert(false);
                }
            }
            let uu = vf_or(ff, rv);
            assert forall|j2: int| 0 <= j2 < aut.ns() implies bf_sub(
                #[trigger] net_step(aut, pairs, c, uu, len, forward)[j2],
                rv[j2],
            ) by {
                assert(bf_sub(
                    net_step(aut, pairs, c, uu, len, forward)[j2],
                    vf_or(rv, covers(net, pairs, c, aut.ns(), len))[j2],
                ));
                assert forall|x: int|
                    0 <= x < len && #[trigger] net_step(aut, pairs, c, uu, len, forward)[j2][x] implies rv[j2][x] by {
                    assert(vf_or(rv, covers(net, pairs, c, aut.ns(), len))[j2][x]);
                    assert(!covers(net, pairs, c, aut.ns(), len)[j2][x]);
                }
            }
            if forward {
                // the seed together with the reach sets is the least closed
                // vector containing the seed
                let total = vf_or(ff, rv);
                assert forall|j2: int| 0 <= j2 < aut.ns() implies bf_sub(#[trigger] ff[j2], total[j2]) by {
                    assert(total[j2].len() == len);
                }
                assert(vf_sub(step_post(aut, pairs, total, len), rv));
                assert forall|j2: int| 0 <= j2 < aut.ns() implies bf_sub(
                    #[trigger] step_post(aut, pairs, total, len)[j2],
                    total[j2],
                ) by {
                    crate::reachable::lemma_step_post_shape(aut, pairs, total, len);
                    assert forall|x: int|
                        0 <= x < len && #[trigger] step_post(aut, pairs, total, len)[j2][x] implies total[j2][x] by {
                        assert(rv[j2][x]);
                    }
                }
                assert(post_fp(aut, pairs, ff, total, len));
                assert forall|sc: Seq<Seq<bool>>|
                    #[trigger] post_fp(aut, pairs, ff, sc, len) implies vf_sub(total, sc) by {
                    assert(net_closed(aut, pairs, c, ff, sc, len, forward));
                    assert(vf_sub(rv, sc));
                    assert(vf_sub(ff, sc));
                    assert forall|j2: int| 0 <= j2 < aut.ns() implies bf_sub(
                        #[trigger] total[j2],
                        sc[j2],
                    ) by {
                        assert(bf_sub(ff[j2], sc[j2]));
                        assert(bf_sub(rv[j2], sc[j2]));
                        assert forall|x: int|
                            0 <= x < len && #[trigger] total[j2][x] implies sc[j2][x] by {
                            assert(ff[j2][x] || rv[j2][x]);
                        }
                    }
                }
                assert(is_post_lfp(aut, pairs, ff, vf_or(ff, views(r@)), len));
            } else {
                assert(pre_fp(aut, pairs, c, ff, rv, len));
                assert forall|sc: Seq<Seq<bool>>|
                    #[trigger] pre_fp(aut, pairs, c, ff, sc, len) implies vf_sub(rv, sc) by {
                    assert(net_closed(aut, pairs, c, ff, sc, len, forward));
                }
                assert(is_pre_lfp(aut, pairs, c, ff, views(r@), len));
            }
        }
        r
    }
}

/// A copy of an inbox; the message functions are preserved.
fn copy_msgs(v: &Vec<Bdd>) -> (r: Vec<Bdd>)
    ensures
        r@.len() == v@.len(),
        forall|e: int|
            0 <= e < v@.len() ==> ((#[trigger] r@[e]).mgr == v@[e].mgr && r@[e].num_vars
                == v@[e].num_vars && r@[e]@ == v@[e]@),
        views(r@) == views(v@),
{
    let mut r: Vec<Bdd> = Vec::new();
    let mut e: usize = 0;
    while e < v.len()
        invariant
            0 <= e <= v@.len(),
            r@.len() == e,
            forall|k: int|
                0 <= k < e ==> ((#[trigger] r@[k]).mgr == v@[k].mgr && r@[k].num_vars
                    == v@[k].num_vars && r@[k]@ == v@[k]@),
        decreases v@.len() - e,
    {
        r.push(v[e].clone());
        e += 1;
    }
    proof {
        assert(views(r@) =~~= views(v@));
    }
    r
}

} // verus!
