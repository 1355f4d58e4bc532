use vstd::prelude::*;

verus! {

use crate::bdd::{Bdd, Manager, cube_sat};

/// An ordered set of `(variable, polarity)` literals naming a cube: one
/// static block of the boolean state space, used to split one automaton
/// state's workload over several workers.
pub struct Slice {
    pub vars: Vec<(u64, bool)>,
}

impl Clone for Slice {
    fn clone(&self) -> (r: Self)
        ensures
            r.vars@ == self.vars@,
    {
        let mut vars: Vec<(u64, bool)> = Vec::new();
        let mut k: usize = 0;
        while k < self.vars.len()
            invariant
                0 <= k <= self.vars@.len(),
                vars@.len() == k,
                forall|i: int| 0 <= i < k ==> vars@[i] == self.vars@[i],
            decreases self.vars@.len() - k,
        {
            vars.push(self.vars[k]);
            k += 1;
        }
        proof {
            assert(vars@ =~= self.vars@);
        }
        Slice { vars }
    }
}

impl Slice {
    pub fn new(vars: Vec<(u64, bool)>) -> (r: Self)
        ensures
            r.vars@ == vars@,
    {
        Slice { vars }
    }

    /// The number of literals fixed by this slice.
    pub fn len(&self) -> (r: usize)
        ensures
            r == self.vars@.len(),
    {
        self.vars.len()
    }

    /// Fix one more variable's polarity.
    pub fn push(&mut self, lit: (u64, bool))
        ensures
            final(self).vars@ == old(self).vars@.push(lit),
    {
        self.vars.push(lit);
    }

    /// The cube as a state set of the manager `m`: exactly the assignments
    /// agreeing with every literal.
    pub fn bdd(&self, manager: &Manager) -> (r: Bdd)
        requires
            manager.inv(),
            forall|k: int| 0 <= k < self.vars@.len() ==> (#[trigger] self.vars@[k]).0
                < manager.num_vars,
        ensures
            r.inv(),
            r.owned_by(*manager),
            forall|s: int| 0 <= s < r@.len() ==> r@[s] == cube_sat(self.vars@, s as u64),
    {
        manager.cube(&self.vars)
    }
}

/// The bookkeeping of the slices of one partitioned run: the current
/// pairwise-refinable set of slices, capped at the worker count.
pub struct SliceManager {
    pub _max_slice: usize,
    pub slices: Vec<Slice>,
}

impl SliceManager {
    pub fn new(slice: Vec<Slice>, max_slice: usize) -> (r: Self)
        ensures
            r._max_slice == max_slice,
            r.slices@ == slice@,
    {
        SliceManager { _max_slice: max_slice, slices: slice }
    }

    /// A copy of the current slices.
    pub fn get_slices(&self) -> (r: Vec<Slice>)
        ensures
            r@.len() == self.slices@.len(),
            forall|k: int| 0 <= k < r@.len() ==> (#[trigger] r@[k]).vars@
                == self.slices@[k].vars@,
    {
        let mut r: Vec<Slice> = Vec::new();
        let mut k: usize = 0;
        while k < self.slices.len()
            invariant
                0 <= k <= self.slices@.len(),
                r@.len() == k,
                forall|i: int| 0 <= i < k ==> (#[trigger] r@[i]).vars@ == self.slices@[i].vars@,
            decreases self.slices@.len() - k,
        {
            r.push(self.slices[k].clone());
            k += 1;
        }
        r
    }

    /// Refine slice `id` by branching on `var`: the slice keeps the positive
    /// branch and the negative branch becomes a new slice.  Returns whether
    /// the split was made; it is refused once the cap is reached or the
    /// slice does not exist.
    pub fn _add_slice(&mut self, id: usize, var: u64) -> (r: bool)
        ensures
            r == (id < old(self).slices@.len() && old(self).slices@.len() < old(self)._max_slice),
            final(self)._max_slice == old(self)._max_slice,
            r ==> (final(self).slices@.len() == old(self).slices@.len() + 1
                && final(self).slices@[id as int].vars@ == old(self).slices@[id as int].vars@.push((var, true))
                && final(self).slices@.last().vars@ == old(self).slices@[id as int].vars@.push(
                (var, false),
            )),
            !r ==> final(self).slices == old(self).slices,
    {
        if id < self.slices.len() && self.slices.len() < self._max_slice {
            let mut pos = self.slices[id].clone();
            let mut neg = self.slices[id].clone();
            pos.push((var, true));
            neg.push((var, false));
            self.slices[id] = pos;
            self.slices.push(neg);
            true
        } else {
            false
        }
    }
}

} // verus!
