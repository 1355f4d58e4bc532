use vstd::prelude::*;

verus! {

/// How the transition relation is to be built by a front end: as one
/// monolithic relation or as a conjunctively partitioned one.
#[derive(Clone, Copy, Debug, PartialEq, Eq, Structural)]
pub enum TransMethod {
    Monolithic,
    Partition,
}

/// Which checking engine runs.
#[derive(Clone, Copy, Debug, PartialEq, Eq, Structural)]
pub enum Algorithm {
    Partitioned,
    Traditional,
}

/// The run configuration; a command line maps onto this.
#[derive(Clone, Debug)]
pub struct Args {
    /// model checking algorithm
    pub algorithm: Algorithm,
    /// trans partition method
    pub trans_method: TransMethod,
    /// run the partitioned engine over a simulated worker network
    pub parallel: bool,
    /// indices of trans constraints to extend the property with
    pub ltl_extend_trans: Vec<usize>,
    /// keep the single-task optimisation off
    pub close_lace_optimize: bool,
    /// verbose
    pub verbose: bool,
}

impl Default for Args {
    /// The defaults a bare command line gets.
    fn default() -> (r: Self)
        ensures
            r.algorithm == Algorithm::Partitioned,
            r.trans_method == TransMethod::Partition,
            !r.parallel,
            r.ltl_extend_trans@.len() == 0,
            !r.close_lace_optimize,
            !r.verbose,
    {
        Args {
            algorithm: Algorithm::Partitioned,
            trans_method: TransMethod::Partition,
            parallel: false,
            ltl_extend_trans: Vec::new(),
            close_lace_optimize: false,
            verbose: false,
        }
    }
}

/// Run counters reported after a check: how many fixpoint rounds and image
/// computations each phase took.
#[derive(Clone, Copy, Debug)]
pub struct Statistic {
    pub post_reachable_rounds: u64,
    pub fair_cycle_rounds: u64,
    pub image_count: u64,
    pub propagate_count: u64,
}

impl Default for Statistic {
    fn default() -> (r: Self)
        ensures
            r.post_reachable_rounds == 0,
            r.fair_cycle_rounds == 0,
            r.image_count == 0,
            r.propagate_count == 0,
    {
        Statistic {
            post_reachable_rounds: 0,
            fair_cycle_rounds: 0,
            image_count: 0,
            propagate_count: 0,
        }
    }
}

/// One more event, capped instead of wrapping at the counter's end.
pub fn bump(c: u64) -> (r: u64)
    ensures
        r == if c < u64::MAX {
            c + 1
        } else {
            c as int
        },
{
    if c < u64::MAX {
        c + 1
    } else {
        c
    }
}

} // verus!
