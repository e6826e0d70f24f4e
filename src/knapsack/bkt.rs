//! Exhaustive backtracking search.
use vstd::prelude::*;

use crate::knapsack::model::{
    best_value, is_selection, lemma_prefix_profit_monotone, lemma_profit_at_most_prefix,
    lemma_selection_push, lemma_sum_push, prefix_profit, sum_profit, sum_weight,
};
use crate::knapsack::{
    is_sound_solution, optimum, KnapsackInput, KnapsackItem, KnapsackMethod, KnapsackSolution,
    KnapsackSolver,
};

verus! {

/// Exact solver that tries, item after item, taking it and leaving it.
pub struct BktSolver;

impl BktSolver {
    /// The best selection among the first `i` items within capacity `c`, with its profit.
    fn bkt_search(items: &Vec<KnapsackItem>, i: usize, c: u64) -> (r: (u64, Vec<usize>))
        requires
            i <= items@.len(),
            prefix_profit(items@, i as int) <= u64::MAX,
        ensures
            r.0 == best_value(items@, i as int, c as int),
            is_selection(r.1@, i as int),
            sum_weight(items@, r.1@) <= c,
            sum_profit(items@, r.1@) == r.0,
        decreases i,
    {
        if i == 0 {
            return (0, Vec::new());
        }
        proof {
            lemma_prefix_profit_monotone(items@, i as int - 1, i as int);
        }
        let (skip_value, skip_items) = BktSolver::bkt_search(items, i - 1, c);
        let item = items[i - 1];
        if item.weight <= c {
            let (take_value, mut take_items) = BktSolver::bkt_search(items, i - 1, c - item.weight);
            proof {
                lemma_profit_at_most_prefix(items@, take_items@, i as int - 1);
            }
            if take_value + item.profit > skip_value {
                proof {
                    lemma_sum_push(items@, take_items@, (i - 1) as usize);
                    lemma_selection_push(take_items@, i as int - 1);
                }
                take_items.push(i - 1);
                return (take_value + item.profit, take_items);
            }
        }
        (skip_value, skip_items)
    }
}

impl KnapsackSolver for BktSolver {
    open spec fn accepts(&self, input: &KnapsackInput) -> bool {
        input.total_profit() <= u64::MAX
    }

    fn accepts_input(&self, input: &KnapsackInput) -> (r: bool) {
        input.checked_total_profit().is_some()
    }

    /// An optimal selection with its profit.
    fn solve(&self, input: &KnapsackInput) -> (r: KnapsackSolution)
        ensures
            is_sound_solution(input, &r),
            r.total_value == optimum(input),
    {
        let items = input.items();
        let (total_value, selected) = BktSolver::bkt_search(items, items.len(), input.capacity());
        KnapsackSolution { items: selected, total_value }
    }

    fn method(&self) -> (r: KnapsackMethod)
        ensures
            r == KnapsackMethod::Bkt,
    {
        KnapsackMethod::Bkt
    }
}

} // verus!
