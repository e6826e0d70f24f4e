//! Properties that relate the solvers' results to the problem.
use vstd::prelude::*;

use crate::knapsack::model::{
    best_value, is_selection, lemma_best_nonneg, lemma_prefix_profit_monotone,
    lemma_profit_at_most_prefix, lemma_sums_nonneg, prefix_profit, prefix_weight, sum_profit,
    sum_weight,
};
use crate::knapsack::{is_sound_solution, optimum, KnapsackInput, KnapsackItem, KnapsackSolution};

verus! {

/// The items that a selection picks, in its order.
pub open spec fn picked(items: Seq<KnapsackItem>, sel: Seq<usize>) -> Seq<KnapsackItem> {
    sel.map(|k: int, i: usize| items[i as int])
}

proof fn lemma_best_at_most_total(items: Seq<KnapsackItem>, i: int, c: int)
    requires
        0 <= i <= items.len(),
    ensures
        best_value(items, i, c) <= prefix_profit(items, i),
    decreases i,
{
    if i > 0 {
        lemma_best_at_most_total(items, i - 1, c);
        lemma_best_at_most_total(items, i - 1, c - items[i - 1].weight);
    }
}

proof fn lemma_prefix_weight_nonneg(items: Seq<KnapsackItem>, i: int)
    ensures
        prefix_weight(items, i) >= 0,
    decreases i,
{
    if i > 0 {
        lemma_prefix_weight_nonneg(items, i - 1);
    }
}

/// When all of the first `i` items fit together, the best value is their total profit.
pub proof fn lemma_all_fit(items: Seq<KnapsackItem>, i: int, c: int)
    requires
        0 <= i <= items.len(),
        prefix_weight(items, i) <= c,
    ensures
        best_value(items, i, c) == prefix_profit(items, i),
    decreases i,
{
    if i > 0 {
        lemma_prefix_weight_nonneg(items, i - 1);
        lemma_all_fit(items, i - 1, c - items[i - 1].weight);
        lemma_best_at_most_total(items, i - 1, c);
        lemma_prefix_profit_monotone(items, i - 1, i);
    }
}

proof fn lemma_picked_sums(items: Seq<KnapsackItem>, sel: Seq<usize>)
    requires
        forall|k: int| 0 <= k < sel.len() ==> sel[k] < items.len(),
    ensures
        prefix_weight(picked(items, sel), sel.len() as int) == sum_weight(items, sel),
        prefix_profit(picked(items, sel), sel.len() as int) == sum_profit(items, sel),
    decreases sel.len(),
{
    if sel.len() > 0 {
        let d = sel.drop_last();
        lemma_picked_sums(items, d);
        lemma_prefix_same(picked(items, d), picked(items, sel), d.len() as int);
    }
}

proof fn lemma_prefix_same(a: Seq<KnapsackItem>, b: Seq<KnapsackItem>, i: int)
    requires
        0 <= i <= a.len(),
        i <= b.len(),
        forall|k: int| 0 <= k < i ==> a[k] == b[k],
    ensures
        prefix_weight(a, i) == prefix_weight(b, i),
        prefix_profit(a, i) == prefix_profit(b, i),
    decreases i,
{
    if i > 0 {
        lemma_prefix_same(a, b, i - 1);
    }
}

/// If every item fits, the optimum is the total profit of all items.
pub proof fn lemma_all_fit_optimum(input: &KnapsackInput)
    requires
        prefix_weight(input.items_view(), input.items_view().len() as int)
            <= input.capacity_view(),
    ensures
        optimum(input) == input.total_profit(),
{
    lemma_all_fit(
        input.items_view(),
        input.items_view().len() as int,
        input.capacity_view() as int,
    );
}

/// Solving again on the selected items alone (same capacity) reaches the same
/// value: the selected items all fit, so the optimum there is their profit.
pub proof fn lemma_resolve_selection(
    input: &KnapsackInput,
    sol: &KnapsackSolution,
    sub: &KnapsackInput,
)
    requires
        is_sound_solution(input, sol),
        sub.items_view() == picked(input.items_view(), sol.items@),
        sub.capacity_view() == input.capacity_view(),
    ensures
        optimum(sub) == sol.total_value,
{
    lemma_picked_sums(input.items_view(), sol.items@);
    lemma_all_fit(sub.items_view(), sub.items_view().len() as int, sub.capacity_view() as int);
}

/// An exact value can only be met or undercut by any feasible selection: a
/// sound solution is worth at most what an exact solver reports.
pub proof fn lemma_sound_at_most_exact(
    input: &KnapsackInput,
    exact: &KnapsackSolution,
    sound: &KnapsackSolution,
)
    requires
        exact.total_value == optimum(input),
        is_sound_solution(input, sound),
    ensures
        sound.total_value <= exact.total_value,
{
    crate::knapsack::model::lemma_best_upper(
        input.items_view(),
        sound.items@,
        input.items_view().len() as int,
        input.capacity_view() as int,
    );
}

/// Two exact solvers report the same value: the DP value and the MinKnap
/// value are both the optimum, so they are equal.
pub proof fn lemma_exact_values_agree(
    input: &KnapsackInput,
    dp: &KnapsackSolution,
    minknap: &KnapsackSolution,
)
    requires
        dp.total_value == optimum(input),
        minknap.total_value == optimum(input),
    ensures
        dp.total_value == minknap.total_value,
{
}

/// The indices of a selection are distinct and in range.
pub proof fn lemma_selection_distinct(sel: Seq<usize>, n: int)
    requires
        is_selection(sel, n),
    ensures
        forall|a: int, b: int| 0 <= a < sel.len() && 0 <= b < sel.len() && a != b ==> sel[a] != sel[b],
        forall|k: int| 0 <= k < sel.len() ==> 0 <= #[trigger] sel[k] < n,
{
    assert forall|a: int, b: int| 0 <= a < sel.len() && 0 <= b < sel.len() && a != b implies sel[a]
        != sel[b] by {
        if a < b {
            assert(sel[a] < sel[b]);
        } else {
            assert(sel[b] < sel[a]);
        }
    }
}

/// With no items, a sound solution is empty and worth 0.
pub proof fn lemma_empty_input(input: &KnapsackInput, sol: &KnapsackSolution)
    requires
        input.items_view().len() == 0,
        is_sound_solution(input, sol),
    ensures
        sol.items@.len() == 0,
        sol.total_value == 0,
        optimum(input) == 0,
{
    if sol.items@.len() > 0 {
        assert(sol.items@[0] < 0);
    }
}

/// A single item heavier than the capacity: a sound solution is empty and worth 0.
pub proof fn lemma_single_too_heavy(input: &KnapsackInput, sol: &KnapsackSolution)
    requires
        input.items_view().len() == 1,
        input.items_view()[0].weight > input.capacity_view(),
        is_sound_solution(input, sol),
    ensures
        sol.items@.len() == 0,
        sol.total_value == 0,
        optimum(input) == 0,
{
    let sel = sol.items@;
    assert(best_value(input.items_view(), 0, input.capacity_view() as int) == 0);
    if sel.len() > 0 {
        assert(sel[0] == 0);
        if sel.len() > 1 {
            assert(sel[0] < sel[1]);
        }
        assert(sel.len() == 1);
        assert(sel.last() == 0);
        assert(sel.drop_last() =~= Seq::<usize>::empty());
        assert(sum_weight(input.items_view(), sel.drop_last()) == 0);
        assert(sum_weight(input.items_view(), sel) == sum_weight(input.items_view(), sel.drop_last())
            + input.items_view()[sel.last() as int].weight);
    }
}

/// A single item that fits: the optimum is its profit, and a sound solution
/// worth that much (and more than 0) is that item.
pub proof fn lemma_single_fits(input: &KnapsackInput, sol: &KnapsackSolution)
    requires
        input.items_view().len() == 1,
        input.items_view()[0].weight <= input.capacity_view(),
        is_sound_solution(input, sol),
        sol.total_value == optimum(input),
        input.items_view()[0].profit >= 1,
    ensures
        optimum(input) == input.items_view()[0].profit,
        sol.items@ == seq![0usize],
{
    let items = input.items_view();
    let sel = sol.items@;
    lemma_best_nonneg(items, 0, input.capacity_view() as int);
    lemma_best_nonneg(items, 0, input.capacity_view() - items[0].weight);
    if sel.len() == 0 {
        assert(sum_profit(items, sel) == 0);
    } else {
        assert(sel[0] == 0);
        if sel.len() > 1 {
            assert(sel[0] < sel[1]);
        }
        assert(sel =~= seq![0usize]);
    }
}

proof fn lemma_index_identity(sel: Seq<usize>, n: int, k: int)
    requires
        is_selection(sel, n),
        forall|j: usize| j < n ==> #[trigger] sel.contains(j),
        0 <= k < sel.len(),
    ensures
        sel[k] == k,
    decreases k,
{
    lemma_at_least_index(sel, n, k);
    if sel[k] > k {
        assert(sel.contains(k as usize));
        let m = choose|m: int| 0 <= m < sel.len() && sel[m] == k as usize;
        if m < k {
            lemma_index_identity(sel, n, m);
        } else if m > k {
            assert(sel[k] < sel[m]);
        }
    }
}

pub(crate) proof fn lemma_full_selection(sel: Seq<usize>, n: int)
    requires
        is_selection(sel, n),
        forall|j: usize| j < n ==> #[trigger] sel.contains(j),
        0 <= n <= usize::MAX + 1,
    ensures
        sel =~= Seq::new(n as nat, |k: int| k as usize),
{
    assert forall|k: int| 0 <= k < sel.len() implies sel[k] == k by {
        lemma_index_identity(sel, n, k);
    }
    if n > 0 {
        assert(sel.contains((n - 1) as usize));
        let m = choose|m: int| 0 <= m < sel.len() && sel[m] == (n - 1) as usize;
        assert(sel[m] == m);
    }
    if sel.len() > n {
        lemma_at_least_index(sel, n, n);
    }
}

proof fn lemma_at_least_index(sel: Seq<usize>, n: int, k: int)
    requires
        is_selection(sel, n),
        0 <= k < sel.len(),
    ensures
        sel[k] >= k,
    decreases k,
{
    if k > 0 {
        lemma_at_least_index(sel, n, k - 1);
        assert(sel[k - 1] < sel[k]);
    }
}

pub(crate) proof fn lemma_all_indices_profit(items: Seq<KnapsackItem>, n: int)
    requires
        0 <= n <= items.len(),
        n <= usize::MAX + 1,
    ensures
        sum_profit(items, Seq::new(n as nat, |k: int| k as usize)) == prefix_profit(items, n),
        sum_weight(items, Seq::new(n as nat, |k: int| k as usize)) == prefix_weight(items, n),
    decreases n,
{
    if n > 0 {
        let s = Seq::new(n as nat, |k: int| k as usize);
        assert(s.drop_last() =~= Seq::new((n - 1) as nat, |k: int| k as usize));
        lemma_all_indices_profit(items, n - 1);
    }
}

/// When every item weighs nothing, a sound solution that keeps every
/// zero-weight item is all items, worth the total profit.
pub proof fn lemma_all_free(input: &KnapsackInput, sol: &KnapsackSolution)
    requires
        forall|j: int| 0 <= j < input.items_view().len() ==> input.items_view()[j].weight == 0,
        is_sound_solution(input, sol),
        forall|j: int|
            0 <= j < input.items_view().len() && input.items_view()[j].weight == 0
                ==> sol.items@.contains(j as usize),
        input.items_view().len() <= usize::MAX,
    ensures
        sol.items@ == Seq::new(input.items_view().len(), |k: int| k as usize),
        sol.total_value == input.total_profit(),
{
    let n = input.items_view().len() as int;
    assert forall|j: usize| j < n implies #[trigger] sol.items@.contains(j) by {
        assert(input.items_view()[j as int].weight == 0);
    }
    lemma_full_selection(sol.items@, n);
    lemma_all_indices_profit(input.items_view(), n);
}

} // verus!
