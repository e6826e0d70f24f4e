use knapsack::knapsack::sol_tree::{SolutionFragment, SolutionTree};

#[test]
fn fragment_records_newest_decision_at_bit_zero() {
    let mut f = SolutionFragment::new(Some(4));
    f.add_decision(true);
    f.add_decision(false);
    f.add_decision(true);
    assert_eq!(f.value, 0b101);
    assert!(f.get_decision(0));
    assert!(!f.get_decision(1));
    assert!(f.get_decision(2));
    assert!(!f.get_decision(3));
    assert_eq!(f.get_previous_idx(), Some(4));
    f.clear_value();
    assert_eq!(f.value, 0);
    assert_eq!(f.get_previous_idx(), Some(4));
    f.update_previous_idx(None);
    assert_eq!(f.get_previous_idx(), None);
}

#[test]
fn fragment_keeps_last_sixty_four_decisions() {
    let mut f = SolutionFragment::default();
    f.add_decision(true);
    for _ in 0..63 {
        f.add_decision(false);
    }
    assert!(f.get_decision(63));
    f.add_decision(false);
    assert_eq!(f.value, 0);
}

#[test]
fn tree_hands_out_stable_indices() {
    let mut tree = SolutionTree::new();
    let mut a = SolutionFragment::new(None);
    a.add_decision(true);
    let ia = tree.push_fragment(a);
    let b = SolutionFragment::new(Some(ia));
    let ib = tree.push_fragment(b);
    assert_eq!((ia, ib), (0, 1));
    assert_eq!(tree.get_fragment(0).unwrap().value, 1);
    assert_eq!(tree.get_fragment(1).unwrap().get_previous_idx(), Some(0));
    assert!(tree.get_fragment(2).is_none());
    assert_eq!(tree.len(), 2);
}
