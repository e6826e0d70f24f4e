use knapsack::{
    BktSolver, DpSolver, FptasDpSolver, KnapsackInput, KnapsackItem, KnapsackMethod,
    KnapsackSolution, KnapsackSolver, MinKnapSolver,
};

/// Builds an input from `(profit, weight)` pairs.
fn input_of(pairs: &[(u64, u64)], capacity: u64, granularity: u32) -> KnapsackInput {
    let items = pairs.iter().map(|&(p, w)| KnapsackItem::new(w, p)).collect();
    KnapsackInput::new(items, capacity, granularity).unwrap()
}

fn sorted(mut v: Vec<usize>) -> Vec<usize> {
    v.sort();
    v
}

fn check_sound(input: &KnapsackInput, sol: &KnapsackSolution) {
    let items = input.items();
    let mut w = 0u64;
    let mut p = 0u64;
    for k in 0..sol.items.len() {
        assert!(sol.items[k] < items.len());
        if k > 0 {
            assert!(sol.items[k - 1] < sol.items[k]);
        }
        w += items[sol.items[k]].weight;
        p += items[sol.items[k]].profit;
    }
    assert!(w <= input.capacity());
    assert_eq!(p, sol.total_value);
}

fn brute_force(input: &KnapsackInput) -> u64 {
    let items = input.items();
    let n = items.len();
    let mut best = 0u64;
    for mask in 0u32..(1u32 << n) {
        let mut w = 0u64;
        let mut p = 0u64;
        for i in 0..n {
            if mask >> i & 1 == 1 {
                w += items[i].weight;
                p += items[i].profit;
            }
        }
        if w <= input.capacity() && p > best {
            best = p;
        }
    }
    best
}

#[test]
fn textbook_tiny() {
    let input = input_of(&[(60, 10), (100, 20), (120, 30)], 50, 1);
    assert_eq!(DpSolver.solve(&input).total_value, 220);
    let mk = MinKnapSolver.solve(&input);
    assert_eq!(mk.total_value, 220);
    assert_eq!(sorted(mk.items), vec![1, 2]);
    let bk = BktSolver.solve(&input);
    assert_eq!(bk.total_value, 220);
    assert_eq!(bk.items, vec![1, 2]);
}

#[test]
fn forced_exclusion() {
    let input = input_of(&[(10, 5), (40, 4), (30, 6), (50, 3)], 10, 1);
    assert_eq!(DpSolver.solve(&input).total_value, 90);
    let mk = MinKnapSolver.solve(&input);
    assert_eq!(mk.total_value, 90);
    assert_eq!(mk.items, vec![1, 3]);
    assert_eq!(BktSolver.solve(&input).items, vec![1, 3]);
}

#[test]
fn zero_weight_booster() {
    let input = input_of(&[(5, 0), (1, 1), (10, 10)], 1, 1);
    assert_eq!(DpSolver.solve(&input).total_value, 6);
    let mk = MinKnapSolver.solve(&input);
    assert_eq!(mk.total_value, 6);
    assert_eq!(mk.items, vec![0, 1]);
    assert_eq!(BktSolver.solve(&input).items, vec![0, 1]);
}

#[test]
fn infeasible_singleton_dropped() {
    let input = input_of(&[(100, 999), (1, 1)], 1, 1);
    assert_eq!(DpSolver.solve(&input).total_value, 1);
    let mk = MinKnapSolver.solve(&input);
    assert_eq!(mk.total_value, 1);
    assert_eq!(mk.items, vec![1]);
}

#[test]
fn fptas_tightness() {
    let input = input_of(&[(100, 1), (200, 2), (300, 3)], 5, 10);
    let exact = DpSolver.solve(&input).total_value;
    assert_eq!(exact, 500);
    let approx = FptasDpSolver.solve(&input);
    check_sound(&input, &approx);
    assert!(approx.total_value * 10 >= exact * 9);
    assert!(approx.total_value <= exact);
}

#[test]
fn minknap_core_expansion() {
    let pairs = [
        (45, 10),
        (58, 13),
        (20, 6),
        (40, 13),
        (36, 12),
        (43, 17),
        (44, 19),
        (46, 22),
        (37, 25),
        (29, 23),
    ];
    let input = input_of(&pairs, 70, 1);
    // The greedy prefix takes items 0..=4 (weight 54); item 5 does not fit.
    let greedy: u64 = pairs[..5].iter().map(|x| x.1).sum();
    assert!(greedy <= 70 && greedy + pairs[5].1 > 70);
    let mk = MinKnapSolver.solve(&input);
    assert_eq!(mk.total_value, 225);
    assert_eq!(mk.items, vec![0, 1, 3, 4, 7]);
    assert_eq!(DpSolver.solve(&input).total_value, 225);
    assert_eq!(BktSolver.solve(&input).items, vec![0, 1, 3, 4, 7]);
}

#[test]
fn empty_items() {
    let input = input_of(&[], 10, 1);
    for sol in [
        MinKnapSolver.solve(&input),
        DpSolver.solve(&input),
        BktSolver.solve(&input),
        FptasDpSolver.solve(&input),
    ] {
        assert!(sol.items.is_empty());
        assert_eq!(sol.total_value, 0);
    }
}

#[test]
fn single_item_fits() {
    let input = input_of(&[(7, 3)], 3, 1);
    let mk = MinKnapSolver.solve(&input);
    assert_eq!(mk.items, vec![0]);
    assert_eq!(mk.total_value, 7);
    assert_eq!(DpSolver.solve(&input).total_value, 7);
    assert_eq!(BktSolver.solve(&input).items, vec![0]);
    assert_eq!(FptasDpSolver.solve(&input).items, vec![0]);
}

#[test]
fn single_item_too_heavy() {
    let input = input_of(&[(7, 4)], 3, 1);
    let mk = MinKnapSolver.solve(&input);
    assert!(mk.items.is_empty());
    assert_eq!(mk.total_value, 0);
    assert_eq!(DpSolver.solve(&input).total_value, 0);
    assert!(BktSolver.solve(&input).items.is_empty());
    assert!(FptasDpSolver.solve(&input).items.is_empty());
}

#[test]
fn all_items_fit() {
    let input = input_of(&[(3, 1), (4, 2), (5, 3)], 100, 1);
    let mk = MinKnapSolver.solve(&input);
    assert_eq!(mk.items, vec![0, 1, 2]);
    assert_eq!(mk.total_value, 12);
    assert_eq!(BktSolver.solve(&input).items, vec![0, 1, 2]);
    assert_eq!(DpSolver.solve(&input).total_value, 12);
}

#[test]
fn all_items_zero_weight() {
    let input = input_of(&[(3, 0), (4, 0), (5, 0)], 1, 1);
    let mk = MinKnapSolver.solve(&input);
    assert_eq!(mk.items, vec![0, 1, 2]);
    assert_eq!(mk.total_value, 12);
    assert_eq!(DpSolver.solve(&input).total_value, 12);
}

#[test]
fn zero_capacity_rejected() {
    let r = KnapsackInput::new(vec![KnapsackItem::new(1, 1)], 0, 1);
    assert!(matches!(r, Err(knapsack::KnapsackInputError::InvalidCapacity)));
}

#[test]
fn zero_granularity_rejected() {
    let r = KnapsackInput::new(vec![KnapsackItem::new(1, 1)], 5, 0);
    assert!(matches!(r, Err(knapsack::KnapsackInputError::InvalidGranularity)));
    let mut input = input_of(&[(1, 1)], 5, 3);
    assert!(matches!(
        input.set_granularity(0),
        Err(knapsack::KnapsackInputError::InvalidGranularity)
    ));
    assert_eq!(input.granularity(), 3);
    assert!(input.set_granularity(7).is_ok());
    assert_eq!(input.granularity(), 7);
}

#[test]
fn dp_matches_minknap_and_brute_force() {
    let cases: Vec<(Vec<(u64, u64)>, u64)> = vec![
        (vec![(12, 6), (5, 4), (7, 5), (3, 1), (9, 7), (4, 3)], 12),
        (vec![(1, 1), (1, 1), (1, 1), (10, 3)], 3),
        (vec![(8, 5), (8, 5), (9, 6), (2, 1), (6, 4), (3, 2), (7, 5)], 11),
        (vec![(10, 6), (10, 6), (10, 6), (1, 1)], 13),
        (vec![(20, 11), (18, 10), (17, 9), (1, 0), (3, 2)], 21),
    ];
    for (pairs, cap) in cases {
        let input = input_of(&pairs, cap, 1);
        let best = brute_force(&input);
        assert_eq!(DpSolver.solve(&input).total_value, best);
        let mk = MinKnapSolver.solve(&input);
        check_sound(&input, &mk);
        assert_eq!(mk.total_value, best);
        let bk = BktSolver.solve(&input);
        check_sound(&input, &bk);
        assert_eq!(bk.total_value, best);
    }
}

#[test]
fn minknap_random_instances_are_exact() {
    let mut seed: u64 = 0x2545_f491_4f6c_dd1d;
    let mut next = move |m: u64| {
        seed ^= seed << 13;
        seed ^= seed >> 7;
        seed ^= seed << 17;
        seed % m
    };
    for _ in 0..300 {
        let n = 1 + next(12) as usize;
        let pairs: Vec<(u64, u64)> = (0..n).map(|_| (1 + next(40), next(20))).collect();
        let cap = 1 + next(60);
        let input = input_of(&pairs, cap, 1);
        let best = brute_force(&input);
        let mk = MinKnapSolver.solve(&input);
        check_sound(&input, &mk);
        assert_eq!(mk.total_value, best, "{:?} {}", pairs, cap);
        for i in 0..n {
            if pairs[i].1 == 0 {
                assert!(mk.items.contains(&i));
            }
        }
        assert_eq!(DpSolver.solve(&input).total_value, best);
    }
}

#[test]
fn fptas_is_feasible_and_close() {
    let input = input_of(&[(12, 6), (5, 4), (7, 5), (3, 1), (9, 7), (4, 3)], 12, 4);
    let exact = DpSolver.solve(&input).total_value;
    let approx = FptasDpSolver.solve(&input);
    check_sound(&input, &approx);
    assert!(approx.total_value <= exact);
    assert!(approx.total_value * 4 >= exact * 3);
}

#[test]
fn fptas_reports_true_profits() {
    // Scaled profits are 1 and 2; the report sums the unscaled ones.
    let input = input_of(&[(50, 1), (100, 1)], 2, 1);
    let sol = FptasDpSolver.solve(&input);
    assert_eq!(sol.items, vec![0, 1]);
    assert_eq!(sol.total_value, 150);
}

#[test]
fn resolving_the_selection_gives_it_back() {
    let input = input_of(&[(10, 5), (40, 4), (30, 6), (50, 3)], 10, 1);
    let sol = MinKnapSolver.solve(&input);
    let chosen: Vec<KnapsackItem> = sol.items.iter().map(|&i| input.items()[i]).collect();
    let again = KnapsackInput::new(chosen, input.capacity(), 1).unwrap();
    let sol2 = MinKnapSolver.solve(&again);
    assert_eq!(sol2.total_value, sol.total_value);
    assert_eq!(sol2.items, (0..sol.items.len()).collect::<Vec<_>>());
    assert_eq!(DpSolver.solve(&again).total_value, sol.total_value);
}

#[test]
fn selected_indices_distinct_and_in_range() {
    let input = input_of(&[(3, 2), (3, 2), (3, 2), (3, 2), (1, 0)], 5, 1);
    for sol in [MinKnapSolver.solve(&input), BktSolver.solve(&input), FptasDpSolver.solve(&input)] {
        check_sound(&input, &sol);
        let mut seen = sol.items.clone();
        seen.dedup();
        assert_eq!(seen.len(), sol.items.len());
    }
}

#[test]
fn method_tags() {
    assert_eq!(DpSolver.method(), KnapsackMethod::Dp);
    assert_eq!(BktSolver.method(), KnapsackMethod::Bkt);
    assert_eq!(FptasDpSolver.method(), KnapsackMethod::Fptas);
    assert_eq!(MinKnapSolver.method(), KnapsackMethod::MinKnap);
    assert_eq!(KnapsackMethod::Dp.as_str(), "Dp");
    assert_eq!(KnapsackMethod::Bkt.as_str(), "Bkt");
    assert_eq!(KnapsackMethod::Fptas.as_str(), "Fptas");
    assert_eq!(KnapsackMethod::MinKnap.as_str(), "MinKnap");
}

#[test]
fn input_aggregates() {
    let input = input_of(&[(3, 7), (4, 2), (5, 9)], 10, 1);
    assert_eq!(input.max_cost(), 9);
    assert_eq!(input.max_item_profit(), 12);
}

#[test]
fn fptas_with_heavy_most_profitable_item() {
    // The most profitable item cannot be taken, so its profit shrinks all the
    // others to the same scaled profit; the result stays feasible and exact
    // about its own value.
    let input = input_of(&[(1000, 100), (1, 5), (1, 5), (10, 5)], 10, 2);
    let approx = FptasDpSolver.solve(&input);
    check_sound(&input, &approx);
    assert!(approx.total_value <= brute_force(&input));
}

#[test]
fn fptas_ratio_when_best_item_fits() {
    let input = input_of(&[(30, 3), (1, 1), (1, 1), (12, 2), (9, 2)], 5, 2);
    let exact = brute_force(&input);
    let approx = FptasDpSolver.solve(&input);
    check_sound(&input, &approx);
    assert!(2 * approx.total_value >= exact);
}
