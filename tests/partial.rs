use babble::{CostSet, LibSel, PartialLibCost};

fn leaf() -> CostSet {
    CostSet::intro_op()
}

/// A selection with no library whose expression has `n` nodes.
fn sel_of_size(n: usize) -> LibSel {
    let mut s = LibSel::intro_op();
    for _ in 1..n {
        s.inc_cost();
    }
    s
}

/// A cost set whose one selection uses the library `lib`, its body of
/// `body` nodes, in an expression of one node.
fn with_lib(lib: usize, body: usize) -> CostSet {
    let mut value = CostSet::intro_op();
    for _ in 1..body {
        value.inc_cost();
    }
    CostSet::intro_op().add_lib(lib, &value)
}

fn fulls(cs: &CostSet) -> Vec<usize> {
    (0..cs.len()).map(|i| cs.get(i).full_cost()).collect()
}

#[test]
fn it_works() {
    assert_eq!(2 + 2, 4);
}

#[test]
fn intro_op_is_one_node_without_libs() {
    let s = LibSel::intro_op();
    assert_eq!(s.expr_cost(), 1);
    assert_eq!(s.full_cost(), 1);
    assert!(s.libs().is_empty());
    let cs = CostSet::intro_op();
    assert_eq!(cs.len(), 1);
}

#[test]
fn lib_sel_add_lib_charges_once() {
    let body = sel_of_size(3);
    let a = LibSel::intro_op().add_lib(7, &body);
    assert_eq!(a.libs(), &vec![(7, 3)]);
    assert_eq!(a.expr_cost(), 1);
    assert_eq!(a.full_cost(), 4);
    let b = a.add_lib(7, &sel_of_size(5));
    assert_eq!(b.libs(), &vec![(7, 3)]);
    assert_eq!(b.full_cost(), 4);
}

#[test]
fn lib_sel_combine_unions_libraries() {
    let a = LibSel::intro_op().add_lib(7, &sel_of_size(3));
    let b = LibSel::intro_op()
        .add_lib(8, &sel_of_size(2))
        .add_lib(7, &sel_of_size(3));
    let c = a.combine(&b);
    assert_eq!(c.libs(), &vec![(7, 3), (8, 2)]);
    assert_eq!(c.expr_cost(), 2);
    assert_eq!(c.full_cost(), 7);
}

#[test]
fn lib_sel_combine_keeps_left_cost_of_shared_library() {
    let a = LibSel::intro_op().add_lib(4, &sel_of_size(2));
    let b = LibSel::intro_op().add_lib(4, &sel_of_size(6));
    let c = a.combine(&b);
    assert_eq!(c.libs(), &vec![(4, 2)]);
    assert_eq!(c.full_cost(), 4);
}

#[test]
fn lib_sel_is_subset() {
    let plain = sel_of_size(2);
    let with = sel_of_size(2).add_lib(1, &sel_of_size(3));
    assert!(plain.is_subset(&with));
    assert!(!with.is_subset(&plain));
    assert!(!sel_of_size(3).is_subset(&sel_of_size(2)));
    assert!(sel_of_size(2).is_subset(&sel_of_size(3)));
}

#[test]
fn inc_cost_adds_one_node() {
    let mut cs = with_lib(2, 3);
    cs.inc_cost();
    assert_eq!(cs.get(0).expr_cost(), 2);
    assert_eq!(cs.get(0).full_cost(), 5);
}

#[test]
fn cross_sorts_by_full_cost() {
    let mut a = with_lib(1, 5);
    a.combine(leaf());
    assert_eq!(fulls(&a), vec![1, 6]);
    let b = with_lib(2, 2);
    let c = a.cross(&b);
    assert_eq!(fulls(&c), vec![4, 9]);
    assert_eq!(c.get(0).libs(), &vec![(2, 2)]);
    assert_eq!(c.get(1).libs(), &vec![(1, 5), (2, 2)]);
}

#[test]
fn combine_is_stable_on_equal_costs() {
    let mut a = with_lib(1, 3);
    a.combine(with_lib(2, 3));
    assert_eq!(fulls(&a), vec![4, 4]);
    assert_eq!(a.get(0).libs(), &vec![(1, 3)]);
    assert_eq!(a.get(1).libs(), &vec![(2, 3)]);
}

#[test]
fn unify_removes_dominated_selections() {
    let mut a = leaf();
    a.combine(with_lib(1, 3));
    a.combine(with_lib(2, 1));
    assert_eq!(a.len(), 3);
    a.unify();
    assert_eq!(a.len(), 1);
    assert!(a.get(0).libs().is_empty());
}

#[test]
fn unify_keeps_incomparable_selections() {
    let mut a = with_lib(1, 3);
    a.combine(with_lib(2, 1));
    a.unify();
    assert_eq!(fulls(&a), vec![2, 4]);
}

#[test]
fn prune_keeps_the_cheapest() {
    let mut a = with_lib(1, 4);
    a.combine(with_lib(2, 1));
    a.combine(with_lib(3, 2));
    a.prune(2);
    assert_eq!(fulls(&a), vec![2, 3]);
    a.prune(5);
    assert_eq!(a.len(), 2);
    a.prune(0);
    assert_eq!(a.len(), 0);
}

#[test]
fn cost_set_add_lib_names_the_library_everywhere() {
    let mut body = leaf();
    body.combine(with_lib(1, 2));
    let mut value = leaf();
    value.inc_cost();
    value.combine(with_lib(4, 1));
    let r = body.add_lib(9, &value);
    assert_eq!(r.len(), 4);
    for i in 0..r.len() {
        assert!(r.get(i).libs().iter().any(|e| e.0 == 9));
    }
    assert_eq!(fulls(&r), vec![2, 3, 4, 5]);
}

#[test]
fn max_full_cost_of_a_set() {
    let mut a = with_lib(1, 4);
    a.combine(leaf());
    assert_eq!(a.max_full_cost(), 5);
    let mut e = leaf();
    e.prune(0);
    assert_eq!(e.max_full_cost(), 0);
}

#[test]
fn analysis_parameters() {
    let a = PartialLibCost::new(20);
    assert_eq!(a.beam_size(), 20);
    assert_eq!(a.inter_beam_size(), 20);
    let b = PartialLibCost::with_params(400, 1000, 20, true);
    assert_eq!(b.beam_size(), 400);
    assert_eq!(b.inter_beam_size(), 1000);
    assert_eq!(b.lps(), 20);
    assert!(b.extra_por());
}

#[test]
fn make_of_a_leaf_is_one_node() {
    let a = PartialLibCost::new(10);
    let cs = a.make(&[]);
    assert_eq!(cs.len(), 1);
    assert_eq!(cs.get(0).full_cost(), 1);
    assert!(cs.get(0).libs().is_empty());
}

#[test]
fn make_of_a_unary_node_adds_one() {
    let a = PartialLibCost::new(10);
    let cs = a.make(&[with_lib(3, 2)]);
    assert_eq!(cs.get(0).expr_cost(), 2);
    assert_eq!(cs.get(0).full_cost(), 4);
}

#[test]
fn make_counts_ast_size_without_libraries() {
    let a = PartialLibCost::new(10);
    let plus = a.make(&[leaf(), leaf()]);
    assert_eq!(fulls(&plus), vec![3]);
    let times = a.make(&[leaf(), leaf(), leaf()]);
    assert_eq!(fulls(&times), vec![4]);
    let root = a.make(&[plus, times]);
    assert_eq!(root.len(), 1);
    assert_eq!(root.get(0).full_cost(), 8);
    assert!(root.get(0).libs().is_empty());
}

#[test]
fn make_lib_charges_the_body_once() {
    let a = PartialLibCost::new(10);
    let value = a.make(&[leaf(), leaf()]);
    let body = a.make(&[leaf(), leaf()]);
    let cs = a.make_lib(0, &value, &body);
    assert_eq!(cs.len(), 1);
    assert_eq!(cs.get(0).libs(), &vec![(0, 3)]);
    assert_eq!(cs.get(0).expr_cost(), 3);
    assert_eq!(cs.get(0).full_cost(), 6);
    let twice = a.make(&[cs.clone(), cs]);
    assert_eq!(twice.get(0).libs(), &vec![(0, 3)]);
    assert_eq!(twice.get(0).full_cost(), 10);
}

#[test]
fn make_prunes_to_the_beam() {
    let a = PartialLibCost::with_params(2, 100, 1, false);
    let mut x = with_lib(1, 1);
    x.combine(with_lib(2, 2));
    x.combine(with_lib(3, 3));
    let r = a.make(&[x, leaf()]);
    assert_eq!(r.len(), 2);
    assert_eq!(fulls(&r), vec![4, 5]);
}

#[test]
fn merge_honours_the_beam_and_drops_the_dearest() {
    let a = PartialLibCost::new(3);
    let mut to = with_lib(10, 6);
    for (lib, body) in [(11, 2), (12, 9), (13, 4), (14, 3)] {
        a.merge(&mut to, with_lib(lib, body));
    }
    assert_eq!(to.len(), 3);
    assert_eq!(fulls(&to), vec![3, 4, 5]);
}

#[test]
fn merge_reduces_dominated_selections() {
    let a = PartialLibCost::new(10);
    let mut to = with_lib(1, 2);
    a.merge(&mut to, leaf());
    assert_eq!(to.len(), 1);
    assert!(to.get(0).libs().is_empty());
}

#[test]
fn two_identical_expressions_share_a_constant_library() {
    let a = PartialLibCost::new(10);
    let plus = a.make(&[leaf(), leaf()]);
    let bound = a.make_lib(0, &plus, &leaf());
    let mut class = plus.clone();
    a.merge(&mut class, bound);
    assert_eq!(fulls(&class), vec![3, 4]);
    let root = a.make(&[class.clone(), class]);
    assert_eq!(fulls(&root), vec![6, 7]);
    let best = root.best().unwrap();
    assert_eq!(best.libs(), &vec![(0, 3)]);
    assert_eq!(best.expr_cost(), 3);
    assert!(root.get(1).libs().is_empty());
}
