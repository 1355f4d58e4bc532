use smc::bdd::Manager;
use smc::slice::{Slice, SliceManager};

#[test]
fn boolean_connectives_on_small_tables() {
    let m = Manager::new(7, 2);
    let a = m.ith_var(0);
    let b = m.ith_var(1);
    // variable 0 holds on assignments 1 and 3; variable 1 on 2 and 3
    assert_eq!(a.table, vec![false, true, false, true]);
    assert_eq!(b.table, vec![false, false, true, true]);
    assert_eq!(a.and(&b).table, vec![false, false, false, true]);
    assert_eq!(a.or(&b).table, vec![false, true, true, true]);
    assert_eq!(a.xor(&b).table, vec![false, true, true, false]);
    assert_eq!(a.not().table, vec![true, false, true, false]);
    assert_eq!(a.diff(&b).table, vec![false, true, false, false]);
}

#[test]
fn constants_and_emptiness() {
    let m = Manager::new(1, 2);
    let f = m.constant(false);
    let t = m.constant(true);
    assert!(f.is_constant(false));
    assert!(!f.is_constant(true));
    assert!(t.is_constant(true));
    assert!(!t.and(&f).is_constant(true));
    assert!(t.and(&f).is_constant(false));
}

#[test]
fn cubes_pick_exactly_their_assignments() {
    let m = Manager::new(2, 3);
    let c = m.cube(&vec![(0, true), (2, false)]);
    for s in 0u64..8 {
        let expect = (s & 1 == 1) && (s >> 2) & 1 == 0;
        assert_eq!(c.table[s as usize], expect);
    }
    let empty_cube = m.cube(&vec![]);
    assert!(empty_cube.is_constant(true));
}

#[test]
fn function_equality_is_structural() {
    let m = Manager::new(3, 2);
    let a = m.ith_var(0);
    let b = m.ith_var(1);
    let left = a.or(&b).not();
    let right = a.not().and(&b.not());
    assert!(left == right);
    assert!(!(left == a));
}

#[test]
fn translocation_preserves_the_function_both_ways() {
    // a value carried from one manager to another and back is
    // function-equal to the original
    let home = Manager::new(10, 3);
    let away = Manager::new(11, 3);
    let v = home.ith_var(1).or(&home.ith_var(2).not());
    let moved = away.translocate(&v);
    assert_eq!(moved.mgr, 11);
    let back = home.translocate(&moved);
    assert_eq!(back.mgr, 10);
    assert_eq!(back.table, v.table);
    assert!(back == v);
}

#[test]
fn slices_cut_cubes_out_of_the_space() {
    let m = Manager::new(4, 2);
    let s = Slice::new(vec![(0, true)]);
    let cube = s.bdd(&m);
    assert_eq!(cube.table, vec![false, true, false, true]);
}

#[test]
fn slice_manager_splits_until_its_cap() {
    let mut sm = SliceManager::new(vec![Slice::new(vec![])], 2);
    assert_eq!(sm.get_slices().len(), 1);
    // one split fits under the cap: the slice branches on variable 0
    assert!(sm._add_slice(0, 0));
    let slices = sm.get_slices();
    assert_eq!(slices.len(), 2);
    assert_eq!(slices[0].vars, vec![(0, true)]);
    assert_eq!(slices[1].vars, vec![(0, false)]);
    // the cap now refuses further splits, as does a missing slice
    assert!(!sm._add_slice(0, 1));
    assert!(!sm._add_slice(5, 1));
}
