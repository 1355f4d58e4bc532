use vstd::prelude::*;

verus! {

use crate::bdd::{Bdd, Manager, MAX_VARS};

/// The larger of two lengths.
pub open spec fn nmax(a: nat, b: nat) -> nat {
    if a >= b {
        a
    } else {
        b
    }
}

/// An edge list abstracted to `(destination, label function)` pairs.
pub open spec fn edges_view(l: Seq<(usize, Bdd)>) -> Seq<(int, Seq<bool>)> {
    Seq::new(l.len(), |e: int| (l[e].0 as int, l[e].1@))
}

/// A Büchi automaton over states `0..num_state()`: forward and backward
/// adjacency lists of `(state, guard)` pairs, kept mirror-consistent, plus
/// the sets of initial and accepting states.  All guards are owned by one
/// manager.  Edges and state sets never mutate once built, except through
/// `add_edge`, `add_init_state` and `add_accepting_state`.
pub struct BuchiAutomata {
    pub mgr: u64,
    pub num_vars: u64,
    pub forward: Vec<Vec<(usize, Bdd)>>,
    pub backward: Vec<Vec<(usize, Bdd)>>,
    pub accepting_states: Vec<usize>,
    pub init_states: Vec<usize>,
}

impl BuchiAutomata {
    pub open spec fn ns(self) -> nat {
        self.forward@.len()
    }

    /// Every entry of one adjacency list points inside the automaton and
    /// carries a well-formed guard of this automaton's manager.
    pub open spec fn row_ok(self, l: Seq<(usize, Bdd)>) -> bool {
        forall|e: int|
            0 <= e < l.len() ==> ((#[trigger] l[e]).0 < self.ns() && l[e].1.inv() && l[e].1.mgr
                == self.mgr && l[e].1.num_vars == self.num_vars)
    }

    /// The forward list of `i` holds an edge to `j` labelled `l`.
    pub open spec fn has_fwd(self, i: int, j: int, l: Seq<bool>) -> bool {
        0 <= i < self.ns() && exists|e: int|
            0 <= e < self.forward@[i]@.len() && (#[trigger] self.forward@[i]@[e]).0 == j
                && self.forward@[i]@[e].1@ == l
    }

    /// The backward list of `j` holds an edge from `i` labelled `l`.
    pub open spec fn has_bwd(self, j: int, i: int, l: Seq<bool>) -> bool {
        0 <= j < self.ns() && exists|e: int|
            0 <= e < self.backward@[j]@.len() && (#[trigger] self.backward@[j]@[e]).0 == i
                && self.backward@[j]@[e].1@ == l
    }

    /// An edge `(i, j, label)` stands in `forward[i]` exactly when its mirror
    /// stands in `backward[j]`.
    pub open spec fn mirror(self) -> bool {
        &&& forall|i: int, e: int|
            0 <= i < self.ns() && 0 <= e < self.forward@[i]@.len() ==> self.has_bwd(
                (#[trigger] self.forward@[i]@[e]).0 as int,
                i,
                self.forward@[i]@[e].1@,
            )
        &&& forall|j: int, e: int|
            0 <= j < self.ns() && 0 <= e < self.backward@[j]@.len() ==> self.has_fwd(
                (#[trigger] self.backward@[j]@[e]).0 as int,
                j,
                self.backward@[j]@[e].1@,
            )
    }

    pub open spec fn inv(self) -> bool {
        &&& self.num_vars <= MAX_VARS
        &&& self.forward@.len() == self.backward@.len()
        &&& forall|i: int| 0 <= i < self.ns() ==> self.row_ok((#[trigger] self.forward@[i])@)
        &&& forall|i: int| 0 <= i < self.ns() ==> self.row_ok((#[trigger] self.backward@[i])@)
        &&& forall|k: int|
            0 <= k < self.accepting_states@.len() ==> (#[trigger] self.accepting_states@[k])
                < self.ns()
        &&& forall|k: int|
            0 <= k < self.init_states@.len() ==> (#[trigger] self.init_states@[k]) < self.ns()
        &&& self.mirror()
    }

    pub open spec fn owned_by(self, m: Manager) -> bool {
        self.mgr == m.id && self.num_vars == m.num_vars
    }

    /// An empty automaton over the manager `m`.
    pub fn new(m: &Manager) -> (r: Self)
        requires
            m.inv(),
        ensures
            r.inv(),
            r.owned_by(*m),
            r.ns() == 0,
            r.accepting_states@.len() == 0,
            r.init_states@.len() == 0,
    {
        BuchiAutomata {
            mgr: m.id,
            num_vars: m.num_vars,
            forward: Vec::new(),
            backward: Vec::new(),
            accepting_states: Vec::new(),
            init_states: Vec::new(),
        }
    }

    pub fn num_state(&self) -> (r: usize)
        ensures
            r == self.ns(),
    {
        self.forward.len()
    }

    /// Grow the automaton so that state `to` exists; new states have no
    /// edges.
    pub fn extend_to(&mut self, to: usize)
        requires
            old(self).inv(),
        ensures
            final(self).inv(),
            final(self).mgr == old(self).mgr,
            final(self).num_vars == old(self).num_vars,
            final(self).accepting_states@ == old(self).accepting_states@,
            final(self).init_states@ == old(self).init_states@,
            final(self).ns() == nmax(old(self).ns(), (to + 1) as nat),
            forall|i: int|
                0 <= i < old(self).ns() ==> (#[trigger] final(self).forward@[i]) == old(self).forward@[i],
            forall|i: int|
                0 <= i < old(self).ns() ==> (#[trigger] final(self).backward@[i]) == old(self).backward@[i],
            forall|i: int|
                old(self).ns() <= i < final(self).ns() ==> (#[trigger] final(self).forward@[i])@.len() == 0,
            forall|i: int|
                old(self).ns() <= i < final(self).ns() ==> (#[trigger] final(self).backward@[i])@.len() == 0,
    {
        while self.forward.len() <= to
            invariant
                self.inv(),
                self.mgr == old(self).mgr,
                self.num_vars == old(self).num_vars,
                self.accepting_states@ == old(self).accepting_states@,
                self.init_states@ == old(self).init_states@,
                self.ns() >= old(self).ns(),
                self.ns() <= nmax(old(self).ns(), (to + 1) as nat),
                forall|i: int|
                    0 <= i < old(self).ns() ==> (#[trigger] self.forward@[i]) == old(self).forward@[i],
                forall|i: int|
                    0 <= i < old(self).ns() ==> (#[trigger] self.backward@[i]) == old(self).backward@[i],
                forall|i: int|
                    old(self).ns() <= i < self.ns() ==> (#[trigger] self.forward@[i])@.len() == 0,
                forall|i: int|
                    old(self).ns() <= i < self.ns() ==> (#[trigger] self.backward@[i])@.len() == 0,
            decreases to + 1 - self.forward.len(),
        {
            let gs = Ghost(*self);
            self.forward.push(Vec::new());
            self.backward.push(Vec::new());
            proof {
                let s0 = gs@;
                let s1 = *self;
                assert forall|i: int, e: int|
                    0 <= i < s1.ns() && 0 <= e < s1.forward@[i]@.len() implies s1.has_bwd(
                    (#[trigger] s1.forward@[i]@[e]).0 as int,
                    i,
                    s1.forward@[i]@[e].1@,
                ) by {
                    assert(i < s0.ns());
                    assert(s0.has_bwd(s0.forward@[i]@[e].0 as int, i, s0.forward@[i]@[e].1@));
                    let j = s0.forward@[i]@[e].0 as int;
                    let e2 = choose|e2: int|
                        0 <= e2 < s0.backward@[j]@.len() && (#[trigger] s0.backward@[j]@[e2]).0 == i
                            && s0.backward@[j]@[e2].1@ == s0.forward@[i]@[e].1@;
                    assert(s1.backward@[j]@[e2] == s0.backward@[j]@[e2]);
                }
                assert forall|j: int, e: int|
                    0 <= j < s1.ns() && 0 <= e < s1.backward@[j]@.len() implies s1.has_fwd(
                    (#[trigger] s1.backward@[j]@[e]).0 as int,
                    j,
                    s1.backward@[j]@[e].1@,
                ) by {
                    assert(j < s0.ns());
                    assert(s0.has_fwd(s0.backward@[j]@[e].0 as int, j, s0.backward@[j]@[e].1@));
                    let i = s0.backward@[j]@[e].0 as int;
                    let e2 = choose|e2: int|
                        0 <= e2 < s0.forward@[i]@.len() && (#[trigger] s0.forward@[i]@[e2]).0 == j
                            && s0.forward@[i]@[e2].1@ == s0.backward@[j]@[e].1@;
                    assert(s1.forward@[i]@[e2] == s0.forward@[i]@[e2]);
                }
            }
        }
    }

    /// Record the edge `from --label--> to` in both adjacency directions,
    /// growing the state space as needed.
    pub fn add_edge(&mut self, from: usize, to: usize, label: Bdd)
        requires
            old(self).inv(),
            label.inv(),
            label.mgr == old(self).mgr,
            label.num_vars == old(self).num_vars,
        ensures
            final(self).inv(),
            final(self).mgr == old(self).mgr,
            final(self).num_vars == old(self).num_vars,
            final(self).accepting_states@ == old(self).accepting_states@,
            final(self).init_states@ == old(self).init_states@,
            final(self).ns() == nmax(old(self).ns(), nmax((from + 1) as nat, (to + 1) as nat)),
            from < final(self).ns() && to < final(self).ns(),
            edges_view(final(self).forward@[from as int]@) == (if from < old(self).ns() {
                edges_view(old(self).forward@[from as int]@)
            } else {
                Seq::<(int, Seq<bool>)>::empty()
            }).push((to as int, label@)),
            edges_view(final(self).backward@[to as int]@) == (if to < old(self).ns() {
                edges_view(old(self).backward@[to as int]@)
            } else {
                Seq::<(int, Seq<bool>)>::empty()
            }).push((from as int, label@)),
            forall|i: int|
                0 <= i < final(self).ns() && i != from ==> edges_view(
                    (#[trigger] final(self).forward@[i])@,
                ) == (if i < old(self).ns() {
                    edges_view(old(self).forward@[i]@)
                } else {
                    Seq::<(int, Seq<bool>)>::empty()
                }),
            forall|i: int|
                0 <= i < final(self).ns() && i != to ==> edges_view(
                    (#[trigger] final(self).backward@[i])@,
                ) == (if i < old(self).ns() {
                    edges_view(old(self).backward@[i]@)
                } else {
                    Seq::<(int, Seq<bool>)>::empty()
                }),
    {
        self.extend_to(from);
        self.extend_to(to);
        let gs = Ghost(*self);
        let mut frow = copy_edges(&self.forward[from]);
        frow.push((to, label.clone()));
        self.forward[from] = frow;
        let mut brow = copy_edges(&self.backward[to]);
        brow.push((from, label.clone()));
        self.backward[to] = brow;
        proof {
            let s0 = gs@;
            let s1 = *self;
            assert(s0.inv());
            assert(s1.ns() == s0.ns());
            assert(edges_view(s1.forward@[from as int]@) =~= edges_view(
                s0.forward@[from as int]@,
            ).push((to as int, label@)));
            assert(edges_view(s1.backward@[to as int]@) =~= edges_view(
                s0.backward@[to as int]@,
            ).push((from as int, label@)));
            assert forall|i: int| 0 <= i < s1.ns() && i != from implies edges_view(
                (#[trigger] s1.forward@[i])@,
            ) =~= edges_view(s0.forward@[i]@) by {}
            assert forall|i: int| 0 <= i < s1.ns() && i != to implies edges_view(
                (#[trigger] s1.backward@[i])@,
            ) =~= edges_view(s0.backward@[i]@) by {}
            // bridge the extended snapshot back to the state before growth
            let oldns = old(self).ns() as int;
            assert forall|i: int| 0 <= i < s1.ns() implies edges_view(
                (#[trigger] s0.forward@[i])@,
            ) == (if i < oldns {
                edges_view(old(self).forward@[i]@)
            } else {
                Seq::<(int, Seq<bool>)>::empty()
            }) by {
                if i < oldns {
                    assert(s0.forward@[i] == old(self).forward@[i]);
                } else {
                    assert(s0.forward@[i]@.len() == 0);
                    assert(edges_view(s0.forward@[i]@) =~= Seq::<(int, Seq<bool>)>::empty());
                }
            }
            assert forall|i: int| 0 <= i < s1.ns() implies edges_view(
                (#[trigger] s0.backward@[i])@,
            ) == (if i < oldns {
                edges_view(old(self).backward@[i]@)
            } else {
                Seq::<(int, Seq<bool>)>::empty()
            }) by {
                if i < oldns {
                    assert(s0.backward@[i] == old(self).backward@[i]);
                } else {
                    assert(s0.backward@[i]@.len() == 0);
                    assert(edges_view(s0.backward@[i]@) =~= Seq::<(int, Seq<bool>)>::empty());
                }
            }
            // restate the row shapes over `self` for the postconditions
            assert(self.backward@[to as int] == s1.backward@[to as int]);
            assert(edges_view(self.backward@[to as int]@) == (if to < old(self).ns() {
                edges_view(old(self).backward@[to as int]@)
            } else {
                Seq::<(int, Seq<bool>)>::empty()
            }).push((from as int, label@)));
            assert(self.forward@[from as int] == s1.forward@[from as int]);
            assert(edges_view(self.forward@[from as int]@) == (if from < old(self).ns() {
                edges_view(old(self).forward@[from as int]@)
            } else {
                Seq::<(int, Seq<bool>)>::empty()
            }).push((to as int, label@)));
            assert forall|i: int| 0 <= i < self.ns() && i != to implies edges_view(
                (#[trigger] self.backward@[i])@,
            ) == (if i < oldns {
                edges_view(old(self).backward@[i]@)
            } else {
                Seq::<(int, Seq<bool>)>::empty()
            }) by {
                assert(self.backward@[i] == s1.backward@[i]);
                assert(edges_view(s1.backward@[i]@) =~= edges_view(s0.backward@[i]@));
            }
            assert forall|i: int| 0 <= i < self.ns() && i != from implies edges_view(
                (#[trigger] self.forward@[i])@,
            ) == (if i < oldns {
                edges_view(old(self).forward@[i]@)
            } else {
                Seq::<(int, Seq<bool>)>::empty()
            }) by {
                assert(self.forward@[i] == s1.forward@[i]);
                assert(edges_view(s1.forward@[i]@) =~= edges_view(s0.forward@[i]@));
            }
            // rows stay well formed
            assert forall|i: int| 0 <= i < s1.ns() implies s1.row_ok(
                (#[trigger] s1.forward@[i])@,
            ) && s1.row_ok((#[trigger] s1.backward@[i])@) by {
                assert(s0.row_ok(s0.forward@[i]@));
                assert(s0.row_ok(s0.backward@[i]@));
                if i == from {
                    assert forall|e: int| 0 <= e < s1.forward@[i]@.len() implies ((
                    #[trigger] s1.forward@[i]@[e]).0 < s1.ns() && s1.forward@[i]@[e].1.inv()
                        && s1.forward@[i]@[e].1.mgr == s1.mgr && s1.forward@[i]@[e].1.num_vars
                        == s1.num_vars) by {
                        if e < s1.forward@[i]@.len() - 1 {
                            assert(s1.forward@[i]@[e].0 == s0.forward@[i]@[e].0);
                            assert(s1.forward@[i]@[e].1.inv());
                        }
                    }
                }
                if i == to {
                    assert forall|e: int| 0 <= e < s1.backward@[i]@.len() implies ((
                    #[trigger] s1.backward@[i]@[e]).0 < s1.ns() && s1.backward@[i]@[e].1.inv()
                        && s1.backward@[i]@[e].1.mgr == s1.mgr && s1.backward@[i]@[e].1.num_vars
                        == s1.num_vars) by {
                        if e < s1.backward@[i]@.len() - 1 {
                            assert(s1.backward@[i]@[e].0 == s0.backward@[i]@[e].0);
                            assert(s1.backward@[i]@[e].1.inv());
                        }
                    }
                }
            }
            // the mirror survives: old witnesses sit at their old indices,
            // and the two new entries mirror each other
            assert forall|i: int, e: int|
                0 <= i < s1.ns() && 0 <= e < s1.forward@[i]@.len() implies s1.has_bwd(
                (#[trigger] s1.forward@[i]@[e]).0 as int,
                i,
                s1.forward@[i]@[e].1@,
            ) by {
                if i == from && e == s1.forward@[i]@.len() - 1 {
                    let j = to as int;
                    let e2 = s1.backward@[j]@.len() - 1;
                    assert(0 <= e2 < s1.backward@[j]@.len() && (s1.backward@[j]@[e2]).0 == i
                        && s1.backward@[j]@[e2].1@ == label@);
                } else {
                    assert(s0.has_bwd(s0.forward@[i]@[e].0 as int, i, s0.forward@[i]@[e].1@));
                    let j = s0.forward@[i]@[e].0 as int;
                    let e2 = choose|e2: int|
                        0 <= e2 < s0.backward@[j]@.len() && (#[trigger] s0.backward@[j]@[e2]).0 == i
                            && s0.backward@[j]@[e2].1@ == s0.forward@[i]@[e].1@;
                    assert(0 <= e2 < s1.backward@[j]@.len() && (s1.backward@[j]@[e2]).0 == i
                        && s1.backward@[j]@[e2].1@ == s1.forward@[i]@[e].1@);
                }
            }
            assert forall|j: int, e: int|
                0 <= j < s1.ns() && 0 <= e < s1.backward@[j]@.len() implies s1.has_fwd(
                (#[trigger] s1.backward@[j]@[e]).0 as int,
                j,
                s1.backward@[j]@[e].1@,
            ) by {
                if j == to && e == s1.backward@[j]@.len() - 1 {
                    let i = from as int;
                    let e2 = s1.forward@[i]@.len() - 1;
                    assert(0 <= e2 < s1.forward@[i]@.len() && (s1.forward@[i]@[e2]).0 == j
                        && s1.forward@[i]@[e2].1@ == label@);
                } else {
                    assert(s0.has_fwd(s0.backward@[j]@[e].0 as int, j, s0.backward@[j]@[e].1@));
                    let i = s0.backward@[j]@[e].0 as int;
                    let e2 = choose|e2: int|
                        0 <= e2 < s0.forward@[i]@.len() && (#[trigger] s0.forward@[i]@[e2]).0 == j
                            && s0.forward@[i]@[e2].1@ == s0.backward@[j]@[e].1@;
                    assert(0 <= e2 < s1.forward@[i]@.len() && (s1.forward@[i]@[e2]).0 == j
                        && s1.forward@[i]@[e2].1@ == s1.backward@[j]@[e].1@);
                }
            }
        }
    }

    /// Two automata with the same edges, manager and variables satisfy the
    /// same edge-level invariants.
    proof fn lemma_same_edges_inv(a: BuchiAutomata, b: BuchiAutomata)
        requires
            a.inv(),
            b.mgr == a.mgr,
            b.num_vars == a.num_vars,
            b.forward == a.forward,
            b.backward == a.backward,
            forall|k: int|
                0 <= k < b.accepting_states@.len() ==> (#[trigger] b.accepting_states@[k])
                    < b.ns(),
            forall|k: int|
                0 <= k < b.init_states@.len() ==> (#[trigger] b.init_states@[k]) < b.ns(),
        ensures
            b.inv(),
    {
        assert(b.ns() == a.ns());
        assert forall|i: int| 0 <= i < b.ns() implies b.row_ok(
            (#[trigger] b.forward@[i])@,
        ) by {
            assert(a.row_ok(a.forward@[i]@));
        }
        assert forall|i: int| 0 <= i < b.ns() implies b.row_ok(
            (#[trigger] b.backward@[i])@,
        ) by {
            assert(a.row_ok(a.backward@[i]@));
        }
        assert forall|i: int, e: int|
            0 <= i < b.ns() && 0 <= e < b.forward@[i]@.len() implies b.has_bwd(
            (#[trigger] b.forward@[i]@[e]).0 as int,
            i,
            b.forward@[i]@[e].1@,
        ) by {
            assert(a.has_bwd(a.forward@[i]@[e].0 as int, i, a.forward@[i]@[e].1@));
            let j = a.forward@[i]@[e].0 as int;
            let e2 = choose|e2: int|
                0 <= e2 < a.backward@[j]@.len() && (#[trigger] a.backward@[j]@[e2]).0 == i
                    && a.backward@[j]@[e2].1@ == a.forward@[i]@[e].1@;
            assert(0 <= e2 < b.backward@[j]@.len() && (b.backward@[j]@[e2]).0 == i
                && b.backward@[j]@[e2].1@ == b.forward@[i]@[e].1@);
        }
        assert forall|j: int, e: int|
            0 <= j < b.ns() && 0 <= e < b.backward@[j]@.len() implies b.has_fwd(
            (#[trigger] b.backward@[j]@[e]).0 as int,
            j,
            b.backward@[j]@[e].1@,
        ) by {
            assert(a.has_fwd(a.backward@[j]@[e].0 as int, j, a.backward@[j]@[e].1@));
            let i = a.backward@[j]@[e].0 as int;
            let e2 = choose|e2: int|
                0 <= e2 < a.forward@[i]@.len() && (#[trigger] a.forward@[i]@[e2]).0 == j
                    && a.forward@[i]@[e2].1@ == a.backward@[j]@[e].1@;
            assert(0 <= e2 < b.forward@[i]@.len() && (b.forward@[i]@[e2]).0 == j
                && b.forward@[i]@[e2].1@ == b.backward@[j]@[e].1@);
        }
    }

    /// Mark an existing state as initial.
    pub fn add_init_state(&mut self, state: usize)
        requires
            old(self).inv(),
            state < old(self).ns(),
        ensures
            final(self).inv(),
            final(self).mgr == old(self).mgr,
            final(self).num_vars == old(self).num_vars,
            final(self).forward == old(self).forward,
            final(self).backward == old(self).backward,
            final(self).accepting_states == old(self).accepting_states,
            final(self).init_states@ == old(self).init_states@.push(state),
    {
        let gs = Ghost(*self);
        self.init_states.push(state);
        proof {
            Self::lemma_same_edges_inv(gs@, *self);
        }
    }

    /// Mark an existing state as accepting.
    pub fn add_accepting_state(&mut self, state: usize)
        requires
            old(self).inv(),
            state < old(self).ns(),
        ensures
            final(self).inv(),
            final(self).mgr == old(self).mgr,
            final(self).num_vars == old(self).num_vars,
            final(self).forward == old(self).forward,
            final(self).backward == old(self).backward,
            final(self).init_states == old(self).init_states,
            final(self).accepting_states@ == old(self).accepting_states@.push(state),
    {
        let gs = Ghost(*self);
        self.accepting_states.push(state);
        proof {
            Self::lemma_same_edges_inv(gs@, *self);
        }
    }
}

/// A copy of an adjacency row; the guards keep their functions and owners.
fn copy_edges(l: &Vec<(usize, Bdd)>) -> (r: Vec<(usize, Bdd)>)
    ensures
        edges_view(r@) == edges_view(l@),
        r@.len() == l@.len(),
        forall|e: int|
            0 <= e < l@.len() ==> ((#[trigger] r@[e]).0 == l@[e].0 && r@[e].1@ == l@[e].1@
                && r@[e].1.mgr == l@[e].1.mgr && r@[e].1.num_vars == l@[e].1.num_vars),
{
    let mut r: Vec<(usize, Bdd)> = Vec::new();
    let mut e: usize = 0;
    while e < l.len()
        invariant
            0 <= e <= l@.len(),
            r@.len() == e,
            forall|k: int|
                0 <= k < e ==> ((#[trigger] r@[k]).0 == l@[k].0 && r@[k].1@ == l@[k].1@
                    && r@[k].1.mgr == l@[k].1.mgr && r@[k].1.num_vars == l@[k].1.num_vars),
        decreases l@.len() - e,
    {
        let (j, b) = &l[e];
        r.push((*j, b.clone()));
        e += 1;
    }
    proof {
        assert(edges_view(r@) =~= edges_view(l@));
    }
    r
}

} // verus!
