//! Selections of items, their weight and profit, and the optimum they can reach.
use vstd::prelude::*;

use crate::knapsack::KnapsackItem;

verus! {

/// Total weight of the items at the positions listed in `sel`.
pub open spec fn sum_weight(items: Seq<KnapsackItem>, sel: Seq<usize>) -> int
    decreases sel.len(),
{
    if sel.len() == 0 {
        0
    } else {
        sum_weight(items, sel.drop_last()) + items[sel.last() as int].weight
    }
}

/// Total profit of the items at the positions listed in `sel`.
pub open spec fn sum_profit(items: Seq<KnapsackItem>, sel: Seq<usize>) -> int
    decreases sel.len(),
{
    if sel.len() == 0 {
        0
    } else {
        sum_profit(items, sel.drop_last()) + items[sel.last() as int].profit
    }
}

/// `sel` lists positions below `n`, strictly ascending (hence distinct).
pub open spec fn is_selection(sel: Seq<usize>, n: int) -> bool {
    &&& forall|k: int| 0 <= k < sel.len() ==> sel[k] < n
    &&& forall|a: int, b: int| 0 <= a < b < sel.len() ==> sel[a] < sel[b]
}

/// Sum of the profits of the first `i` items.
pub open spec fn prefix_profit(items: Seq<KnapsackItem>, i: int) -> int
    decreases i,
{
    if i <= 0 {
        0
    } else {
        prefix_profit(items, i - 1) + items[i - 1].profit
    }
}

/// Sum of the weights of the first `i` items.
pub open spec fn prefix_weight(items: Seq<KnapsackItem>, i: int) -> int
    decreases i,
{
    if i <= 0 {
        0
    } else {
        prefix_weight(items, i - 1) + items[i - 1].weight
    }
}

/// The best profit of a selection among the first `i` items whose weight is at most `c`.
pub open spec fn best_value(items: Seq<KnapsackItem>, i: int, c: int) -> int
    decreases i,
{
    if i <= 0 {
        0
    } else {
        let skip = best_value(items, i - 1, c);
        let it = items[i - 1];
        if it.weight <= c {
            let take = best_value(items, i - 1, c - it.weight) + it.profit;
            if take > skip {
                take
            } else {
                skip
            }
        } else {
            skip
        }
    }
}

/// The value that stands for "no selection" in a table of least weights.
pub const NO_SELECTION: u128 = 0xffff_ffff_ffff_ffff_ffff_ffff_ffff_ffff;

/// The least weight of a selection among the first `i` items whose profit is
/// exactly `p`, or `NO_SELECTION` when there is none (the bound never binds:
/// see `lemma_least_weight_bound`).
pub open spec fn least_weight(items: Seq<KnapsackItem>, i: int, p: int) -> int {
    min_weight(items, i, p, NO_SELECTION as int - 1)
}

pub proof fn lemma_prefix_weight_bound(items: Seq<KnapsackItem>, i: int)
    requires
        0 <= i <= items.len(),
        i <= 0xffff_ffff_ffff_ffff,
    ensures
        0 <= prefix_weight(items, i) <= 0xffff_ffff_ffff_fffe_0000_0000_0000_0001int,
    decreases i,
{
    if i > 0 {
        lemma_prefix_weight_bound(items, i - 1);
        assert(prefix_weight(items, i - 1) <= (i - 1) * 0xffff_ffff_ffff_ffffint) by {
            lemma_prefix_weight_linear(items, i - 1);
        }
        lemma_prefix_weight_linear(items, i);
        assert(i * 0xffff_ffff_ffff_ffffint <= 0xffff_ffff_ffff_ffffint * 0xffff_ffff_ffff_ffffint)
            by (nonlinear_arith)
            requires
                i <= 0xffff_ffff_ffff_ffffint,
        ;
    }
}

proof fn lemma_prefix_weight_linear(items: Seq<KnapsackItem>, i: int)
    requires
        0 <= i <= items.len(),
    ensures
        0 <= prefix_weight(items, i) <= i * 0xffff_ffff_ffff_ffffint,
    decreases i,
{
    if i > 0 {
        lemma_prefix_weight_linear(items, i - 1);
        assert((i - 1) * 0xffff_ffff_ffff_ffffint + 0xffff_ffff_ffff_ffffint == i
            * 0xffff_ffff_ffff_ffffint) by (nonlinear_arith);
    }
}

/// A least weight is exact: either `NO_SELECTION`, or at most the weight of
/// all the first `i` items, far below `NO_SELECTION`.
pub proof fn lemma_least_weight_bound(items: Seq<KnapsackItem>, i: int, p: int)
    requires
        0 <= i <= items.len(),
        i <= 0xffff_ffff_ffff_ffff,
    ensures
        least_weight(items, i, p) == NO_SELECTION || 0 <= least_weight(items, i, p)
            <= prefix_weight(items, i),
        prefix_weight(items, i) <= 0xffff_ffff_ffff_fffe_0000_0000_0000_0001int,
    decreases i,
{
    lemma_prefix_weight_bound(items, i);
    if i > 0 {
        lemma_least_weight_bound(items, i - 1, p);
        lemma_least_weight_bound(items, i - 1, p - items[i - 1].profit);
    }
}

/// The least weight, capped at `cap + 1`, of a selection among the first `i`
/// items whose profit is exactly `p`; `cap + 1` also stands for "none".
pub open spec fn min_weight(items: Seq<KnapsackItem>, i: int, p: int, cap: int) -> int
    decreases i,
{
    if i <= 0 {
        if p == 0 {
            0
        } else {
            cap + 1
        }
    } else {
        let skip = min_weight(items, i - 1, p, cap);
        let it = items[i - 1];
        if p >= it.profit {
            let t = min_weight(items, i - 1, p - it.profit, cap) + it.weight;
            let take = if t < cap + 1 {
                t
            } else {
                cap + 1
            };
            if take < skip {
                take
            } else {
                skip
            }
        } else {
            skip
        }
    }
}

pub proof fn lemma_sum_push(items: Seq<KnapsackItem>, sel: Seq<usize>, x: usize)
    ensures
        sum_weight(items, sel.push(x)) == sum_weight(items, sel) + items[x as int].weight,
        sum_profit(items, sel.push(x)) == sum_profit(items, sel) + items[x as int].profit,
{
    assert(sel.push(x).drop_last() =~= sel);
}

pub proof fn lemma_sums_nonneg(items: Seq<KnapsackItem>, sel: Seq<usize>)
    ensures
        sum_weight(items, sel) >= 0,
        sum_profit(items, sel) >= 0,
    decreases sel.len(),
{
    if sel.len() > 0 {
        lemma_sums_nonneg(items, sel.drop_last());
    }
}

pub proof fn lemma_prefix_profit_monotone(items: Seq<KnapsackItem>, i: int, j: int)
    requires
        0 <= i <= j,
    ensures
        prefix_profit(items, i) <= prefix_profit(items, j),
    decreases j - i,
{
    if i < j {
        lemma_prefix_profit_monotone(items, i, j - 1);
    }
}

pub proof fn lemma_prefix_weight_monotone(items: Seq<KnapsackItem>, i: int, j: int)
    requires
        0 <= i <= j,
    ensures
        prefix_weight(items, i) <= prefix_weight(items, j),
    decreases j - i,
{
    if i < j {
        lemma_prefix_weight_monotone(items, i, j - 1);
    }
}

/// Dropping the last position of a selection below `i + 1` that is not `i`
/// leaves a selection below `i`, and one that is `i` leaves one below `i`.
proof fn lemma_selection_split(sel: Seq<usize>, i: int)
    requires
        is_selection(sel, i + 1),
        sel.len() > 0,
    ensures
        is_selection(sel.drop_last(), i),
        sel.last() != i ==> is_selection(sel, i),
{
    assert forall|k: int| 0 <= k < sel.len() - 1 implies sel[k] < i by {
        assert(sel[k] < sel[sel.len() - 1]);
    }
}

pub proof fn lemma_selection_push(sel: Seq<usize>, i: int)
    requires
        is_selection(sel, i),
        0 <= i <= usize::MAX,
    ensures
        is_selection(sel.push(i as usize), i + 1),
{
}

/// Any selection among the first `i` items has profit at most the sum of their profits.
pub proof fn lemma_profit_at_most_prefix(items: Seq<KnapsackItem>, sel: Seq<usize>, i: int)
    requires
        is_selection(sel, i),
        0 <= i <= items.len(),
    ensures
        sum_profit(items, sel) <= prefix_profit(items, i),
    decreases i,
{
    if sel.len() == 0 {
        lemma_prefix_profit_monotone(items, 0, i);
    } else {
        assert(sel[sel.len() - 1] < i);
        lemma_selection_split(sel, i - 1);
        if sel.last() == i - 1 {
            lemma_profit_at_most_prefix(items, sel.drop_last(), i - 1);
        } else {
            lemma_profit_at_most_prefix(items, sel, i - 1);
        }
    }
}

pub proof fn lemma_best_nonneg(items: Seq<KnapsackItem>, i: int, c: int)
    ensures
        best_value(items, i, c) >= 0,
    decreases i,
{
    if i > 0 {
        lemma_best_nonneg(items, i - 1, c);
    }
}

/// No feasible selection among the first `i` items beats `best_value`.
pub proof fn lemma_best_upper(items: Seq<KnapsackItem>, sel: Seq<usize>, i: int, c: int)
    requires
        is_selection(sel, i),
        0 <= i <= items.len(),
        sum_weight(items, sel) <= c,
    ensures
        sum_profit(items, sel) <= best_value(items, i, c),
    decreases i,
{
    if sel.len() == 0 {
        lemma_best_nonneg(items, i, c);
    } else {
        assert(sel[sel.len() - 1] < i);
        lemma_selection_split(sel, i - 1);
        lemma_sums_nonneg(items, sel.drop_last());
        lemma_best_nonneg(items, i - 1, c);
        if sel.last() == i - 1 {
            lemma_best_upper(items, sel.drop_last(), i - 1, c - items[i - 1].weight);
        } else {
            lemma_best_upper(items, sel, i - 1, c);
        }
    }
}

/// Some feasible selection among the first `i` items reaches `best_value`.
pub proof fn lemma_best_witness(items: Seq<KnapsackItem>, i: int, c: int) -> (sel: Seq<usize>)
    requires
        0 <= i <= items.len(),
        i <= usize::MAX,
        c >= 0,
    ensures
        is_selection(sel, i),
        sum_weight(items, sel) <= c,
        sum_profit(items, sel) == best_value(items, i, c),
    decreases i,
{
    if i == 0 {
        Seq::empty()
    } else {
        let it = items[i - 1];
        let skip = lemma_best_witness(items, i - 1, c);
        if it.weight <= c {
            let t = lemma_best_witness(items, i - 1, c - it.weight);
            if best_value(items, i - 1, c - it.weight) + it.profit > best_value(items, i - 1, c) {
                lemma_sum_push(items, t, (i - 1) as usize);
                lemma_selection_push(t, i - 1);
                t.push((i - 1) as usize)
            } else {
                skip
            }
        } else {
            skip
        }
    }
}

pub proof fn lemma_min_weight_bounds(items: Seq<KnapsackItem>, i: int, p: int, cap: int)
    requires
        cap >= 0,
    ensures
        0 <= min_weight(items, i, p, cap) <= cap + 1,
    decreases i,
{
    if i > 0 {
        lemma_min_weight_bounds(items, i - 1, p, cap);
        lemma_min_weight_bounds(items, i - 1, p - items[i - 1].profit, cap);
    }
}

/// A `min_weight` within the capacity is the weight of some selection of that profit.
pub proof fn lemma_min_weight_witness(items: Seq<KnapsackItem>, i: int, p: int, cap: int) -> (sel:
    Seq<usize>)
    requires
        0 <= i <= items.len(),
        i <= usize::MAX,
        cap >= 0,
        min_weight(items, i, p, cap) <= cap,
    ensures
        is_selection(sel, i),
        sum_weight(items, sel) == min_weight(items, i, p, cap),
        sum_profit(items, sel) == p,
    decreases i,
{
    if i == 0 {
        Seq::empty()
    } else {
        let it = items[i - 1];
        let skip = min_weight(items, i - 1, p, cap);
        lemma_min_weight_bounds(items, i - 1, p, cap);
        if p >= it.profit && min_weight(items, i - 1, p - it.profit, cap) + it.weight < skip
            && min_weight(items, i - 1, p - it.profit, cap) + it.weight < cap + 1 {
            lemma_min_weight_bounds(items, i - 1, p - it.profit, cap);
            let t = lemma_min_weight_witness(items, i - 1, p - it.profit, cap);
            lemma_sum_push(items, t, (i - 1) as usize);
            lemma_selection_push(t, i - 1);
            t.push((i - 1) as usize)
        } else {
            lemma_min_weight_witness(items, i - 1, p, cap)
        }
    }
}

/// Every selection among the first `i` items weighs at least the `min_weight` of its profit.
pub proof fn lemma_min_weight_lower(items: Seq<KnapsackItem>, sel: Seq<usize>, i: int, cap: int)
    requires
        is_selection(sel, i),
        0 <= i <= items.len(),
        cap >= 0,
    ensures
        min_weight(items, i, sum_profit(items, sel), cap) <= sum_weight(items, sel),
    decreases i,
{
    lemma_sums_nonneg(items, sel);
    if i > 0 {
        lemma_min_weight_bounds(items, i, sum_profit(items, sel), cap);
        if sel.len() == 0 {
            lemma_min_weight_lower(items, sel, i - 1, cap);
        } else {
            lemma_selection_split(sel, i - 1);
            lemma_sums_nonneg(items, sel.drop_last());
            if sel.last() == i - 1 {
                lemma_min_weight_lower(items, sel.drop_last(), i - 1, cap);
                lemma_min_weight_bounds(items, i - 1, sum_profit(items, sel), cap);
            } else {
                lemma_min_weight_lower(items, sel, i - 1, cap);
                lemma_min_weight_bounds(items, i - 1, sum_profit(items, sel) - items[i - 1].profit, cap);
            }
        }
    }
}

/// The largest profit whose least weight (computed with bound `cap`) fits in
/// capacity `c` is the optimum for capacity `c`.
pub proof fn lemma_min_weight_optimum(items: Seq<KnapsackItem>, v: int, cap: int, c: int)
    requires
        items.len() <= usize::MAX,
        0 <= c <= cap,
        0 <= v <= prefix_profit(items, items.len() as int),
        min_weight(items, items.len() as int, v, cap) <= c,
        forall|q: int|
            v < q <= prefix_profit(items, items.len() as int) ==> min_weight(
                items,
                items.len() as int,
                q,
                cap,
            ) > c,
    ensures
        v == best_value(items, items.len() as int, c),
{
    let n = items.len() as int;
    let s = lemma_min_weight_witness(items, n, v, cap);
    lemma_best_upper(items, s, n, c);
    let o = lemma_best_witness(items, n, c);
    lemma_min_weight_lower(items, o, n, cap);
    lemma_profit_at_most_prefix(items, o, n);
}

/// The sum of the profits, if it fits in a `u64`.
pub fn checked_profit_sum(items: &Vec<KnapsackItem>) -> (r: Option<u64>)
    ensures
        prefix_profit(items@, items@.len() as int) >= 0,
        r == if prefix_profit(items@, items@.len() as int) <= u64::MAX {
            Some(prefix_profit(items@, items@.len() as int) as u64)
        } else {
            None::<u64>
        },
{
    proof {
        lemma_prefix_profit_monotone(items@, 0, items@.len() as int);
    }
    let mut total: u64 = 0;
    let mut i: usize = 0;
    while i < items.len()
        invariant
            0 <= i <= items@.len(),
            total == prefix_profit(items@, i as int),
        decreases items@.len() - i,
    {
        match total.checked_add(items[i].profit) {
            Some(t) => {
                total = t;
            },
            None => {
                proof {
                    lemma_prefix_profit_monotone(items@, i as int + 1, items@.len() as int);
                }
                return None;
            },
        }
        i += 1;
    }
    Some(total)
}

} // verus!
