//! The approximation scheme: rescale the profits, solve exactly, report the
//! true profit of the chosen items.
use vstd::prelude::*;

use crate::knapsack::dp::{rows_filled, table_cells, table_get, total_profit_of, DpSolver};
use crate::knapsack::model::{
    best_value, is_selection, lemma_best_upper, lemma_min_weight_bounds, lemma_min_weight_optimum,
    lemma_profit_at_most_prefix, lemma_sum_push, least_weight, checked_profit_sum, prefix_profit, sum_profit, sum_weight,
};
use crate::knapsack::{
    is_sound_solution, optimum, KnapsackInput, KnapsackItem, KnapsackMethod, KnapsackSolution,
    KnapsackSolver,
};

verus! {

/// Approximate solver: solves exactly for profits rescaled to at most
/// `granularity * n`, then reports the true profit of that selection
/// (`lemma_fptas_ratio` states how close it comes to the optimum).
pub struct FptasDpSolver;

/// The largest profit among the first `i` items (0 when there are none).
pub open spec fn max_profit_of(items: Seq<KnapsackItem>, i: int) -> u64
    decreases i,
{
    if i <= 0 {
        0
    } else {
        let m = max_profit_of(items, i - 1);
        if items[i - 1].profit > m {
            items[i - 1].profit
        } else {
            m
        }
    }
}

/// `max(1, floor(p * m / pmax))`, and 1 when every profit is zero.
pub open spec fn scaled_profit(p: u64, pmax: u64, m: int) -> int {
    if pmax == 0 {
        1
    } else {
        let q = (p * m) / (pmax as int);
        if q < 1 {
            1
        } else {
            q
        }
    }
}

/// The items with profits rescaled by `granularity * n / max profit`.
pub open spec fn scaled_items(items: Seq<KnapsackItem>, granularity: u32) -> Seq<KnapsackItem> {
    let pmax = max_profit_of(items, items.len() as int);
    let m = granularity * items.len();
    Seq::new(
        items.len(),
        |k: int|
            KnapsackItem {
                weight: items[k].weight,
                profit: scaled_profit(items[k].profit, pmax, m) as u64,
            },
    )
}

proof fn lemma_max_profit(items: Seq<KnapsackItem>, i: int)
    requires
        0 <= i <= items.len(),
    ensures
        forall|k: int| 0 <= k < i ==> items[k].profit <= max_profit_of(items, i),
    decreases i,
{
    if i > 0 {
        lemma_max_profit(items, i - 1);
    }
}

proof fn lemma_same_weights(a: Seq<KnapsackItem>, b: Seq<KnapsackItem>, sel: Seq<usize>)
    requires
        a.len() == b.len(),
        forall|k: int| 0 <= k < a.len() ==> a[k].weight == b[k].weight,
        forall|k: int| 0 <= k < sel.len() ==> sel[k] < a.len(),
    ensures
        sum_weight(a, sel) == sum_weight(b, sel),
    decreases sel.len(),
{
    if sel.len() > 0 {
        lemma_same_weights(a, b, sel.drop_last());
    }
}

impl FptasDpSolver {
    /// The items with rescaled profits and unchanged weights.
    fn scale_items(input: &KnapsackInput) -> (r: Vec<KnapsackItem>)
        requires
            input.granularity_view() * input.items_view().len() <= u64::MAX,
        ensures
            r@ == scaled_items(input.items_view(), input.granularity_view()),
    {
        let items = input.items();
        let n: usize = items.len();
        let mut max_value: u64 = 0;
        let mut i: usize = 0;
        while i < n
            invariant
                n == items@.len(),
                0 <= i <= n,
                max_value == max_profit_of(items@, i as int),
            decreases n - i,
        {
            if items[i].profit > max_value {
                max_value = items[i].profit;
            }
            i += 1;
        }
        proof {
            lemma_max_profit(items@, n as int);
        }
        let m: u128 = input.granularity() as u128 * n as u128;
        let mut scaled: Vec<KnapsackItem> = Vec::new();
        let mut k: usize = 0;
        while k < n
            invariant
                n == items@.len(),
                items@ == input.items_view(),
                0 <= k <= n,
                max_value == max_profit_of(items@, n as int),
                forall|j: int| 0 <= j < n ==> items@[j].profit <= max_value,
                m == input.granularity_view() * n,
                m <= u64::MAX,
                scaled@.len() == k,
                forall|j: int|
                    0 <= j < k ==> #[trigger] scaled@[j] == scaled_items(
                        input.items_view(),
                        input.granularity_view(),
                    )[j],
            decreases n - k,
        {
            let item = items[k];
            let profit: u64 = if max_value == 0 {
                1
            } else {
                proof {
                    assert(item.profit * m <= 0xffff_ffff_ffff_ffffint * 0xffff_ffff_ffff_ffffint)
                        by (nonlinear_arith)
                        requires
                            item.profit <= 0xffff_ffff_ffff_ffffint,
                            m <= 0xffff_ffff_ffff_ffffint,
                    ;
                    assert((item.profit * m) / (max_value as int) <= m) by (nonlinear_arith)
                        requires
                            item.profit <= max_value,
                            max_value > 0,
                            m >= 0,
                    ;
                }
                let q: u128 = (item.profit as u128 * m) / max_value as u128;
                if q < 1 {
                    1
                } else {
                    q as u64
                }
            };
            scaled.push(KnapsackItem::new(item.weight, profit));
            k += 1;
        }
        assert(scaled@ =~= scaled_items(input.items_view(), input.granularity_view()));
        scaled
    }

    /// The same selection, valued at the unscaled profits.
    fn get_actual_solution(scaled_solution: Vec<usize>, input: &KnapsackInput) -> (r:
        KnapsackSolution)
        requires
            is_selection(scaled_solution@, input.items_view().len() as int),
            input.total_profit() <= u64::MAX,
        ensures
            r.items@ == scaled_solution@,
            r.total_value == sum_profit(input.items_view(), scaled_solution@),
    {
        let items = input.items();
        let mut total_value: u64 = 0;
        let mut k: usize = 0;
        while k < scaled_solution.len()
            invariant
                items@ == input.items_view(),
                is_selection(scaled_solution@, items@.len() as int),
                input.total_profit() <= u64::MAX,
                0 <= k <= scaled_solution@.len(),
                total_value == sum_profit(items@, scaled_solution@.take(k as int)),
            decreases scaled_solution@.len() - k,
        {
            let idx = scaled_solution[k];
            proof {
                let next = scaled_solution@.take(k as int + 1);
                assert(next.drop_last() =~= scaled_solution@.take(k as int));
                assert(is_selection(next, items@.len() as int));
                lemma_profit_at_most_prefix(items@, next, items@.len() as int);
            }
            total_value = total_value + items[idx].profit;
            k += 1;
        }
        assert(scaled_solution@.take(k as int) =~= scaled_solution@);
        KnapsackSolution { items: scaled_solution, total_value }
    }
}

impl KnapsackSolver for FptasDpSolver {
    open spec fn accepts(&self, input: &KnapsackInput) -> bool {
        let scaled = scaled_items(input.items_view(), input.granularity_view());
        let scaled_total = prefix_profit(scaled, scaled.len() as int);
        &&& input.total_profit() <= u64::MAX
        &&& input.granularity_view() * input.items_view().len() <= u64::MAX
        &&& scaled_total < usize::MAX
        &&& (input.items_view().len() + 1) * (scaled_total + 1) <= isize::MAX
    }

    fn accepts_input(&self, input: &KnapsackInput) -> (r: bool) {
        if input.checked_total_profit().is_none() {
            return false;
        }
        let n: usize = input.items().len();
        let g: u32 = input.granularity();
        proof {
            assert(g * n <= 0xffff_ffffint * 0xffff_ffff_ffff_ffffint) by (nonlinear_arith)
                requires
                    g <= 0xffff_ffffint,
                    n <= 0xffff_ffff_ffff_ffffint,
            ;
        }
        let m: u128 = g as u128 * n as u128;
        if m > u64::MAX as u128 {
            return false;
        }
        let scaled = FptasDpSolver::scale_items(input);
        let total = match checked_profit_sum(&scaled) {
            Some(t) => t,
            None => return false,
        };
        if (total as u128) >= (usize::MAX as u128) {
            return false;
        }
        proof {
            assert((n + 1) * (total + 1) <= 0x1_0000_0000_0000_0000int * 0xffff_ffff_ffff_ffffint)
                by (nonlinear_arith)
                requires
                    n < 0x1_0000_0000_0000_0000int,
                    total < 0xffff_ffff_ffff_ffffint,
            ;
        }
        let cells: u128 = (n as u128 + 1) * (total as u128 + 1);
        cells <= isize::MAX as u128
    }

    /// A feasible selection that is optimal for the rescaled profits, with its
    /// true profit.
    fn solve(&self, input: &KnapsackInput) -> (r: KnapsackSolution)
        ensures
            is_sound_solution(input, &r),
            r.total_value <= optimum(input),
            ({
                let scaled = scaled_items(input.items_view(), input.granularity_view());
                sum_profit(scaled, r.items@) == best_value(
                    scaled,
                    scaled.len() as int,
                    input.capacity_view() as int,
                )
            }),
    {
        let scaled_items = FptasDpSolver::scale_items(input);
        let cap = input.capacity();
        let n: usize = scaled_items.len();
        let total = total_profit_of(&scaled_items);
        let table = DpSolver::gen_table(&scaled_items, total);
        proof {
            crate::knapsack::dp::lemma_min_weight_zero(scaled_items@, n as int, crate::knapsack::model::NO_SELECTION as int - 1);
        }
        let mut v: usize = total;
        while table_get(&table, n, v) > cap as u128
            invariant
                0 <= v <= total,
                n == scaled_items@.len(),
                rows_filled(table_cells(table), scaled_items@, n as int, total as int),
                least_weight(scaled_items@, n as int, 0) == 0,
                forall|q: int| v < q <= total ==> least_weight(scaled_items@, n as int, q) > cap,
            decreases v,
        {
            v -= 1;
        }
        proof {
            assert forall|q: int| v < q <= total implies #[trigger] crate::knapsack::model::min_weight(scaled_items@, n as int, q, crate::knapsack::model::NO_SELECTION as int - 1) > cap by {
                assert(least_weight(scaled_items@, n as int, q) > cap);
            }
            lemma_min_weight_optimum(scaled_items@, v as int, crate::knapsack::model::NO_SELECTION as int - 1, cap as int);
        }
        let path = DpSolver::gen_path(&table, &scaled_items, total, v, cap);
        proof {
            lemma_same_weights(input.items_view(), scaled_items@, path@);
        }
        let r = FptasDpSolver::get_actual_solution(path, input);
        proof {
            lemma_best_upper(input.items_view(), r.items@, n as int, cap as int);
        }
        r
    }

    fn method(&self) -> (r: KnapsackMethod)
        ensures
            r == KnapsackMethod::Fptas,
    {
        KnapsackMethod::Fptas
    }
}

/// Sum of `f` over the positions listed in `sel`.
pub open spec fn sel_sum(sel: Seq<usize>, f: spec_fn(int) -> int) -> int
    decreases sel.len(),
{
    if sel.len() == 0 {
        0
    } else {
        sel_sum(sel.drop_last(), f) + f(sel.last() as int)
    }
}

/// Sum of `f` over the positions below `k` that `sel` contains.
pub open spec fn ind_sum(sel: Seq<usize>, f: spec_fn(int) -> int, k: int) -> int
    decreases k,
{
    if k <= 0 {
        0
    } else {
        ind_sum(sel, f, k - 1) + if sel.contains((k - 1) as usize) {
            f(k - 1)
        } else {
            0
        }
    }
}

proof fn lemma_ind_sum_same(a: Seq<usize>, b: Seq<usize>, f: spec_fn(int) -> int, k: int)
    requires
        0 <= k <= usize::MAX + 1,
        forall|j: usize| j < k ==> #[trigger] a.contains(j) == b.contains(j),
    ensures
        ind_sum(a, f, k) == ind_sum(b, f, k),
    decreases k,
{
    if k > 0 {
        lemma_ind_sum_same(a, b, f, k - 1);
    }
}

proof fn lemma_sel_sum_ind(sel: Seq<usize>, f: spec_fn(int) -> int, k: int)
    requires
        is_selection(sel, k),
        0 <= k <= usize::MAX + 1,
    ensures
        sel_sum(sel, f) == ind_sum(sel, f, k),
    decreases k,
{
    if k > 0 {
        if sel.len() > 0 && sel.last() == k - 1 {
            let d = sel.drop_last();
            assert forall|j: usize| j < k - 1 implies #[trigger] d.contains(j) == sel.contains(j) by {
                if sel.contains(j) {
                    let t = choose|t: int| 0 <= t < sel.len() && sel[t] == j;
                    assert(t != sel.len() - 1);
                    assert(d[t] == j);
                }
                if d.contains(j) {
                    let t = choose|t: int| 0 <= t < d.len() && d[t] == j;
                    assert(sel[t] == j);
                }
            }
            assert(is_selection(d, k - 1)) by {
                assert forall|t: int| 0 <= t < d.len() implies d[t] < k - 1 by {
                    assert(sel[t] < sel[sel.len() - 1]);
                }
            }
            lemma_sel_sum_ind(d, f, k - 1);
            lemma_ind_sum_same(d, sel, f, k - 1);
            assert(sel.contains((k - 1) as usize)) by {
                assert(sel[sel.len() - 1] == (k - 1) as usize);
            }
        } else {
            assert(is_selection(sel, k - 1)) by {
                assert forall|t: int| 0 <= t < sel.len() implies sel[t] < k - 1 by {
                    assert(sel[t] <= sel[sel.len() - 1]) by {
                        if t < sel.len() - 1 {
                            assert(sel[t] < sel[sel.len() - 1]);
                        }
                    }
                }
            }
            lemma_sel_sum_ind(sel, f, k - 1);
            assert(!sel.contains((k - 1) as usize)) by {
                if sel.contains((k - 1) as usize) {
                    let t = choose|t: int| 0 <= t < sel.len() && sel[t] == (k - 1) as usize;
                }
            }
        }
    }
}

/// Each position adds at most `bound` to the difference of the two indicator sums.
proof fn lemma_ind_sum_diff(a: Seq<usize>, b: Seq<usize>, f: spec_fn(int) -> int, k: int, bound: int)
    requires
        0 <= k,
        forall|j: int| 0 <= j < k ==> #[trigger] f(j) <= bound && -f(j) <= bound,
        bound >= 0,
    ensures
        ind_sum(a, f, k) - ind_sum(b, f, k) <= k * bound,
    decreases k,
{
    if k > 0 {
        lemma_ind_sum_diff(a, b, f, k - 1, bound);
        assert((k - 1) * bound + bound == k * bound) by (nonlinear_arith);
    }
}

/// The deviation of item `i`: its scaled profit times the largest profit,
/// minus its profit times `granularity * n`.
pub open spec fn deviation(items: Seq<KnapsackItem>, granularity: u32, i: int) -> int {
    let pmax = max_profit_of(items, items.len() as int);
    let m = granularity * items.len();
    scaled_profit(items[i].profit, pmax, m) * pmax - items[i].profit * m
}

proof fn lemma_deviation_bounds(items: Seq<KnapsackItem>, granularity: u32, i: int)
    requires
        0 <= i < items.len(),
        items[i].profit <= max_profit_of(items, items.len() as int),
    ensures
        deviation(items, granularity, i) <= max_profit_of(items, items.len() as int),
        -deviation(items, granularity, i) <= max_profit_of(items, items.len() as int),
{
    let pmax = max_profit_of(items, items.len() as int) as int;
    let m = granularity * items.len();
    let p = items[i].profit as int;
    let g = granularity as int;
    let len = items.len() as int;
    assert(m >= 0) by (nonlinear_arith)
        requires
            g >= 0,
            len >= 0,
            m == g * len,
    ;
    if pmax > 0 {
        let x = p * m;
        let q = x / pmax;
        assert(x >= 0) by (nonlinear_arith)
            requires
                p >= 0,
                m >= 0,
                x == p * m,
        ;
        vstd::arithmetic::div_mod::lemma_fundamental_div_mod(x, pmax);
        vstd::arithmetic::div_mod::lemma_mod_bound(x, pmax);
        assert(q * pmax <= x < q * pmax + pmax) by (nonlinear_arith)
            requires
                x == pmax * q + x % pmax,
                0 <= x % pmax < pmax,
        ;
        if q < 1 {
            assert(q == 0) by (nonlinear_arith)
                requires
                    x >= 0,
                    pmax > 0,
                    q == x / pmax,
                    q < 1,
            ;
            assert(deviation(items, granularity, i) == pmax - x);
            assert(x < pmax) by (nonlinear_arith)
                requires
                    x < q * pmax + pmax,
                    q == 0,
            ;
        } else {
            assert(deviation(items, granularity, i) == q * pmax - x);
        }
    } else {
        assert(p * m == 0) by (nonlinear_arith)
            requires
                p == 0,
        ;
        assert(deviation(items, granularity, i) == 0);
    }
}

proof fn lemma_deviation_sum(items: Seq<KnapsackItem>, granularity: u32, sel: Seq<usize>)
    requires
        forall|k: int| 0 <= k < sel.len() ==> sel[k] < items.len(),
        granularity * items.len() <= u64::MAX,
        forall|k: int| 0 <= k < items.len() ==> items[k].profit <= max_profit_of(items, items.len() as int),
    ensures
        sel_sum(sel, |i: int| deviation(items, granularity, i)) == sum_profit(
            scaled_items(items, granularity),
            sel,
        ) * max_profit_of(items, items.len() as int) - sum_profit(items, sel) * (granularity
            * items.len()),
    decreases sel.len(),
{
    let pmax = max_profit_of(items, items.len() as int) as int;
    let m = granularity * items.len();
    if sel.len() > 0 {
        lemma_deviation_sum(items, granularity, sel.drop_last());
        let i = sel.last() as int;
        let sc = scaled_items(items, granularity);
        lemma_scaled_fits(items, granularity, i);
        let a = sum_profit(sc, sel.drop_last());
        let b = sum_profit(items, sel.drop_last());
        let sp = sc[i].profit as int;
        let p = items[i].profit as int;
        assert((a + sp) * pmax - (b + p) * m == (a * pmax - b * m) + (sp * pmax - p * m))
            by (nonlinear_arith);
    }
}

proof fn lemma_scaled_fits(items: Seq<KnapsackItem>, granularity: u32, i: int)
    requires
        0 <= i < items.len(),
        granularity * items.len() <= u64::MAX,
        items[i].profit <= max_profit_of(items, items.len() as int),
    ensures
        scaled_items(items, granularity)[i].profit == scaled_profit(
            items[i].profit,
            max_profit_of(items, items.len() as int),
            granularity * items.len(),
        ),
{
    let pmax = max_profit_of(items, items.len() as int) as int;
    let m = granularity * items.len();
    let p = items[i].profit as int;
    if pmax > 0 {
        assert(p * m <= pmax * m) by (nonlinear_arith)
            requires
                p <= pmax,
                m >= 0,
        ;
        assert(p * m >= 0) by (nonlinear_arith)
            requires
                p >= 0,
                m >= 0,
        ;
        vstd::arithmetic::div_mod::lemma_div_is_ordered(p * m, pmax * m, pmax);
        vstd::arithmetic::div_mod::lemma_div_multiples_vanish(m, pmax);
        assert(pmax * m == m * pmax) by (nonlinear_arith);
    }
}

/// The approximation guarantee: when some item of the largest profit fits on
/// its own, a selection that is optimal for the rescaled profits reaches at
/// least `1 - 1 / granularity` of the optimum, stated as
/// `granularity * value >= (granularity - 1) * optimum`.
pub proof fn lemma_fptas_ratio(input: &KnapsackInput, sol: &KnapsackSolution)
    requires
        input.wf(),
        input.granularity_view() * input.items_view().len() <= u64::MAX,
        is_sound_solution(input, sol),
        ({
            let scaled = scaled_items(input.items_view(), input.granularity_view());
            sum_profit(scaled, sol.items@) == best_value(
                scaled,
                scaled.len() as int,
                input.capacity_view() as int,
            )
        }),
        exists|i: int|
            0 <= i < input.items_view().len() && input.items_view()[i].profit == max_profit_of(
                input.items_view(),
                input.items_view().len() as int,
            ) && input.items_view()[i].weight <= input.capacity_view(),
        input.items_view().len() <= usize::MAX,
    ensures
        input.granularity_view() * sol.total_value >= (input.granularity_view() - 1) * optimum(input),
{
    let items = input.items_view();
    let n = items.len() as int;
    let g = input.granularity_view() as int;
    let cap = input.capacity_view() as int;
    let pmax = max_profit_of(items, n) as int;
    let m = g * n;
    let sc = scaled_items(items, input.granularity_view());
    let f = |i: int| deviation(items, input.granularity_view(), i);
    lemma_max_profit(items, n);
    let s = sol.items@;
    let o = crate::knapsack::model::lemma_best_witness(items, n, cap);
    // the best item alone is feasible, so the optimum is at least the largest profit
    let istar = choose|i: int|
        0 <= i < n && items[i].profit == pmax && items[i].weight <= cap;
    let single = seq![istar as usize];
    assert(single.drop_last() =~= Seq::<usize>::empty());
    assert(sum_weight(items, single) == sum_weight(items, single.drop_last()) + items[istar].weight);
    assert(sum_profit(items, single) == sum_profit(items, single.drop_last()) + items[istar].profit);
    lemma_best_upper(items, single, n, cap);
    // the chosen selection is at least as good as the optimum under scaled profits
    assert forall|k: int| 0 <= k < n implies sc[k].weight == items[k].weight by {}
    lemma_same_weights(sc, items, o);
    lemma_best_upper(sc, o, n, cap);
    // deviations
    lemma_deviation_sum(items, input.granularity_view(), s);
    lemma_deviation_sum(items, input.granularity_view(), o);
    lemma_sel_sum_ind(s, f, n);
    lemma_sel_sum_ind(o, f, n);
    assert forall|j: int| 0 <= j < n implies #[trigger] f(j) <= pmax && -f(j) <= pmax by {
        lemma_deviation_bounds(items, input.granularity_view(), j);
    }
    lemma_ind_sum_diff(s, o, f, n, pmax);
    let ps = sum_profit(items, s);
    let po = sum_profit(items, o);
    let qs = sum_profit(sc, s);
    let qo = sum_profit(sc, o);
    assert(qs >= qo);
    assert(pmax >= 0);
    assert(qs * pmax >= qo * pmax) by (nonlinear_arith)
        requires
            qs >= qo,
            pmax >= 0,
    ;
    assert((qs * pmax - ps * m) - (qo * pmax - po * m) <= n * pmax);
    assert(m * (po - ps) <= n * pmax) by (nonlinear_arith)
        requires
            (qs * pmax - ps * m) - (qo * pmax - po * m) <= n * pmax,
            qs * pmax >= qo * pmax,
    ;
    assert(g * (po - ps) <= pmax) by (nonlinear_arith)
        requires
            m * (po - ps) <= n * pmax,
            m == g * n,
            n >= 1,
    ;
    assert(pmax <= po);
    assert(g * ps >= (g - 1) * po) by (nonlinear_arith)
        requires
            g * (po - ps) <= pmax,
            pmax <= po,
    ;
}

} // verus!
