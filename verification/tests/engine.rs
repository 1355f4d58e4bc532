use smc::automata::BuchiAutomata;
use smc::bdd::{Bdd, Manager};
use smc::command::Args;
use smc::partitioned::PartitionedSmc;
use smc::trans::TransitionSystem;
use smc::worker::Worker;

/// The two-bit counter: states 0..4, stepping `s -> s+1 mod 4`.
fn counter_pairs() -> Vec<(u64, u64)> {
    vec![(0, 1), (1, 2), (2, 3), (3, 0)]
}

fn counter_manager() -> Manager {
    Manager::new(0, 2)
}

fn at_three(m: &Manager) -> Bdd {
    m.cube(&vec![(0, true), (1, true)])
}

fn only_zero(m: &Manager) -> Bdd {
    m.cube(&vec![(0, false), (1, false)])
}

/// The automaton for "eventually the counter never reaches three": the
/// negation of "the counter is at three infinitely often".
fn fg_not_three(m: &Manager) -> BuchiAutomata {
    let mut ba = BuchiAutomata::new(m);
    let t = m.constant(true);
    let not3 = at_three(m).not();
    ba.add_edge(0, 0, t);
    ba.add_edge(0, 1, not3.clone());
    ba.add_edge(1, 1, not3);
    ba.add_init_state(0);
    ba.add_accepting_state(1);
    ba
}

/// The automaton for "eventually the counter reaches three": the negation of
/// "the counter always stays below three".
fn f_three(m: &Manager) -> BuchiAutomata {
    let mut ba = BuchiAutomata::new(m);
    let t = m.constant(true);
    ba.add_edge(0, 0, t.clone());
    ba.add_edge(0, 1, at_three(m));
    ba.add_edge(1, 1, t);
    ba.add_init_state(0);
    ba.add_accepting_state(1);
    ba
}

fn counter_smc(ba: BuchiAutomata, m: Manager) -> PartitionedSmc {
    let init = only_zero(&m);
    let fsm = TransitionSystem::new(&m, counter_pairs(), init, Vec::new());
    PartitionedSmc::new(m, fsm, ba, Args::default())
}

#[test]
fn counter_visits_three_infinitely_often() {
    // the counter reaches three again and again, so no run satisfies
    // "eventually never three": every accepting intersection is empty, the
    // property holds, and no violation is reported
    let m = counter_manager();
    let ba = fg_not_three(&m);
    let mut smc = counter_smc(ba, m);
    assert!(!smc.check());
}

#[test]
fn counter_leaves_the_safe_region() {
    // three is reachable and the accepting trap state loops forever: a fair
    // cycle exists and the violation is reported
    let m = counter_manager();
    let ba = f_three(&m);
    let mut smc = counter_smc(ba, m);
    assert!(smc.check());
}

#[test]
fn empty_init_states_reach_nothing() {
    // an accepting self-loop that no initial state feeds: the reachable set
    // at the accepting slot stays empty, whatever the system does
    let m = counter_manager();
    let mut ba = BuchiAutomata::new(&m);
    let t = m.constant(true);
    ba.add_edge(0, 0, t);
    ba.add_accepting_state(0);
    let mut smc = counter_smc(ba, m);
    assert!(!smc.check());
    assert!(!smc.check_safety());
}

#[test]
fn safety_check_finds_the_violation() {
    let m = counter_manager();
    let ba = f_three(&m);
    let mut smc = counter_smc(ba, m);
    assert!(smc.check_safety());
}

#[test]
fn liveness_and_main_entry_agree() {
    let m = counter_manager();
    let ba = fg_not_three(&m);
    let mut smc = counter_smc(ba, m);
    let a = smc.check_liveness();
    let b = smc.check();
    assert_eq!(a, b);
}

#[test]
fn sequential_and_partitioned_reach_agree() {
    // the worker network and the sequential fixpoint compute the same
    // forward-reachable sets; the network's result excludes the seed, which
    // the caller folds back in
    let m = counter_manager();
    let ba = fg_not_three(&m);
    let mut smc = counter_smc(ba, m);
    let from = smc.init_vector();
    let seq = smc.post_reachable(&from);
    let par = smc.parallel_reachable_state(&from, true, None);
    assert_eq!(seq.len(), par.len());
    for j in 0..seq.len() {
        let joined = par[j].or(&from[j]);
        assert!(seq[j] == joined);
    }
}

#[test]
fn sequential_and_partitioned_backward_agree() {
    let m = counter_manager();
    let ba = fg_not_three(&m);
    let mut smc = counter_smc(ba, m);
    let from = smc.init_vector();
    let reach = smc.post_reachable(&from);
    let seq = smc.pre_reachable(&reach, Some(&reach));
    let par = smc.parallel_reachable_state(&reach, false, Some(&reach));
    assert_eq!(seq.len(), par.len());
    for j in 0..seq.len() {
        assert!(seq[j] == par[j]);
    }
}

#[test]
fn forward_rounds_only_grow() {
    // one forward round: the new reach vector contains the old one slot by
    // slot
    let m = counter_manager();
    let ba = fg_not_three(&m);
    let smc = counter_smc(ba, m);
    let from = smc.init_vector();
    let (grown, _frontier) = smc.post_step(&from, &from);
    for j in 0..from.len() {
        let lost = from[j].diff(&grown[j]);
        assert!(lost.is_constant(false));
    }
}

#[test]
fn fair_rounds_only_shrink_and_settle() {
    // the fair-cycle round never grows its candidate, and the fixpoint the
    // engine returns is settled: one more round leaves it unchanged
    let m = counter_manager();
    let ba = fg_not_three(&m);
    let mut smc = counter_smc(ba, m);
    let from = smc.init_vector();
    let reach = smc.post_reachable(&from);
    let shrunk = smc.fair_states_step(&reach, &reach);
    for j in 0..reach.len() {
        let gained = shrunk[j].diff(&reach[j]);
        assert!(gained.is_constant(false));
    }
    // the automaton has two states: the fixpoint from the accepting seed
    // settles within that many rounds, as the engine's result shows
    let fair = smc.fair_states(&reach);
    let settled = smc.fair_states_step(&fair, &reach);
    for j in 0..fair.len() {
        assert!(settled[j] == fair[j]);
    }
}

#[test]
fn outcome_matches_the_intersection_test() {
    let m = counter_manager();
    let ba = f_three(&m);
    let mut smc = counter_smc(ba, m);
    let from = smc.init_vector();
    let reach = smc.post_reachable(&from);
    let fair = smc.fair_states(&reach);
    let every_intersection_empty = smc.accepting_outcome(&reach, &fair);
    assert!(!every_intersection_empty);
    assert_eq!(smc.check(), !every_intersection_empty);
}

#[test]
fn parallel_and_sequential_runs_agree() {
    // the same system and property, checked once with the sequential
    // strategy and once over the worker network: identical answers
    let m1 = counter_manager();
    let ba1 = fg_not_three(&m1);
    let mut seq_smc = counter_smc(ba1, m1);
    let m2 = counter_manager();
    let ba2 = fg_not_three(&m2);
    let mut par_smc = counter_smc(ba2, m2);
    par_smc.args.parallel = true;
    assert_eq!(seq_smc.check(), par_smc.check());
    let m3 = counter_manager();
    let ba3 = f_three(&m3);
    let mut seq_v = counter_smc(ba3, m3);
    let m4 = counter_manager();
    let ba4 = f_three(&m4);
    let mut par_v = counter_smc(ba4, m4);
    par_v.args.parallel = true;
    assert_eq!(seq_v.check(), par_v.check());
    assert!(seq_v.check());
}

#[test]
fn worker_contributions_are_gated_by_the_edge_labels() {
    let m = counter_manager();
    let ba = fg_not_three(&m);
    let smc = counter_smc(ba, m);
    let workers = Worker::create_workers(&smc, None);
    assert_eq!(workers.len(), 2);
    // the trap state's worker: both of its edges carry the not-three label,
    // so a full-space update is cut down to the label on each edge
    let w = &workers[1];
    let full = w.manager.constant(true);
    let msgs = w.propagate(&w.forward, &full);
    assert_eq!(msgs.len(), 1);
    let (dst, content) = &msgs[0];
    assert_eq!(*dst, 1);
    let not3 = w.manager.cube(&vec![(0, true), (1, true)]).not();
    assert!(*content == not3);
}
