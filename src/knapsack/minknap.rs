//! The primal-dual expanding-core solver (Pisinger's MinKnap).
use vstd::prelude::*;

use bitvec::vec::BitVec;
use std::cmp::Ordering;

use crate::knapsack::model::{
    best_value, is_selection, lemma_best_upper, lemma_prefix_weight_monotone, lemma_profit_at_most_prefix,
    lemma_selection_push, lemma_sum_push, prefix_profit, prefix_weight, sum_profit, sum_weight,
};
use crate::knapsack::sol_tree::{decision_at, SolutionFragment, SolutionTree};
use crate::knapsack::{
    is_sound_solution, optimum, KnapsackInput, KnapsackItem, KnapsackMethod, KnapsackSolution,
    KnapsackSolver,
};

verus! {

/// A decision vector: bit `i` set when item `i` is selected. It holds a
/// `bitvec` bit vector, which Verus cannot declare (its type parameters are
/// bound by the crate's own traits).
#[verifier::external_body]
pub struct DecisionVec {
    bits: BitVec,
}

/// The bits that a decision vector holds, in index order.
pub uninterp spec fn bits_of(v: DecisionVec) -> Seq<bool>;

/// Relies on `BitVec::repeat`: a vector of `len` copies of `false`; it panics
/// only when `len` exceeds the bit-length that a `BitVec` can encode.
#[verifier::external_body]
fn new_decision_vec(len: usize) -> (r: DecisionVec)
    requires
        len <= usize::MAX >> 3usize,
    ensures
        bits_of(r) == Seq::new(len as nat, |i: int| false),
{
    DecisionVec { bits: BitVec::repeat(false, len) }
}

/// Relies on `BitSlice::set`: writes one bit, panicking only out of bounds.
#[verifier::external_body]
fn set_decision(v: &mut DecisionVec, idx: usize, value: bool)
    requires
        idx < bits_of(*old(v)).len(),
    ensures
        bits_of(*final(v)) == bits_of(*old(v)).update(idx as int, value),
{
    v.bits.set(idx, value)
}

/// Relies on indexing a `BitSlice`: reads one bit, panicking only out of bounds.
#[verifier::external_body]
fn get_decision_bit(v: &DecisionVec, idx: usize) -> (r: bool)
    requires
        idx < bits_of(*v).len(),
    ensures
        r == bits_of(*v)[idx as int],
{
    v.bits[idx]
}

proof fn lemma_mul_u64(a: u64, b: u64)
    ensures
        a * b <= 0xffff_ffff_ffff_fffe_0000_0000_0000_0001int,
{
    assert(a * b <= 0xffff_ffff_ffff_ffffint * 0xffff_ffff_ffff_ffffint) by (nonlinear_arith)
        requires
            a <= 0xffff_ffff_ffff_ffffint,
            b <= 0xffff_ffff_ffff_ffffint,
    ;
}

/// Orders two item positions by efficiency `profit / weight`, the more
/// efficient first, comparing the cross products `p_a * w_b` and `p_b * w_a`.
fn efficiency_cmp(items: &Vec<KnapsackItem>, a: usize, b: usize) -> (r: Ordering)
    ensures
        a < items@.len() && b < items@.len() ==> {
            let ea = items@[a as int].profit * items@[b as int].weight;
            let eb = items@[b as int].profit * items@[a as int].weight;
            &&& (r == Ordering::Less <==> ea > eb)
            &&& (r == Ordering::Greater <==> ea < eb)
        },
{
    if a >= items.len() || b >= items.len() {
        return Ordering::Equal;
    }
    let ia = items[a];
    let ib = items[b];
    proof {
        lemma_mul_u64(ia.profit, ib.weight);
        lemma_mul_u64(ib.profit, ia.weight);
    }
    let ea: u128 = ia.profit as u128 * ib.weight as u128;
    let eb: u128 = ib.profit as u128 * ia.weight as u128;
    if ea > eb {
        Ordering::Less
    } else if ea < eb {
        Ordering::Greater
    } else {
        Ordering::Equal
    }
}

/// Relies on `slice::sort_by`, a stable sort, with `efficiency_cmp` as the
/// comparison: the positions are rearranged so that no position compares
/// `Greater` than a later one, i.e. by non-increasing efficiency. The
/// comparison is a total order on positions of positive weight, so the sort
/// does not panic.
#[verifier::external_body]
fn sort_by_efficiency(order: &mut Vec<usize>, items: &Vec<KnapsackItem>)
    requires
        forall|k: int|
            0 <= k < old(order)@.len() ==> old(order)@[k] < items@.len() && items@[old(
                order,
            )@[k] as int].weight > 0,
    ensures
        final(order)@.to_multiset() == old(order)@.to_multiset(),
        sorted_by_efficiency(items@, final(order)@),
{
    order.sort_by(|a, b| efficiency_cmp(items, *a, *b))
}

/// Efficiency does not increase along `order`: for positions `i < j`,
/// `p[order[i]] * w[order[j]] >= p[order[j]] * w[order[i]]`.
pub open spec fn sorted_by_efficiency(items: Seq<KnapsackItem>, order: Seq<usize>) -> bool {
    forall|i: int, j: int|
        0 <= i < j < order.len() ==> #[trigger] items[order[i] as int].profit * items[order[
            j
        ] as int].weight >= #[trigger] items[order[j] as int].profit * items[order[i] as int].weight
}

/// Sum of the weights of the items at the first `k` positions of `order`.
pub open spec fn order_weight(items: Seq<KnapsackItem>, order: Seq<usize>, k: int) -> int
    decreases k,
{
    if k <= 0 {
        0
    } else {
        order_weight(items, order, k - 1) + items[order[k - 1] as int].weight
    }
}

/// Sum of the profits of the items at the first `k` positions of `order`.
pub open spec fn order_profit(items: Seq<KnapsackItem>, order: Seq<usize>, k: int) -> int
    decreases k,
{
    if k <= 0 {
        0
    } else {
        order_profit(items, order, k - 1) + items[order[k - 1] as int].profit
    }
}

proof fn lemma_order_monotone(items: Seq<KnapsackItem>, order: Seq<usize>, i: int, j: int)
    requires
        0 <= i <= j,
    ensures
        order_weight(items, order, i) <= order_weight(items, order, j),
        order_profit(items, order, i) <= order_profit(items, order, j),
    decreases j - i,
{
    if i < j {
        lemma_order_monotone(items, order, i, j - 1);
    }
}

proof fn lemma_order_profit_bound(items: Seq<KnapsackItem>, order: Seq<usize>, k: int)
    requires
        k >= 0,
    ensures
        order_profit(items, order, k) <= k * 0xffff_ffff_ffff_ffff,
    decreases k,
{
    if k > 0 {
        lemma_order_profit_bound(items, order, k - 1);
        assert((k - 1) * 0xffff_ffff_ffff_ffffint + 0xffff_ffff_ffff_ffffint == k
            * 0xffff_ffff_ffff_ffffint) by (nonlinear_arith);
    }
}

/// Positions of the items that the core works on: valid, of positive weight
/// and each fitting on its own.
pub open spec fn order_ok(items: Seq<KnapsackItem>, order: Seq<usize>, cap: int) -> bool {
    forall|k: int|
        0 <= k < order.len() ==> order[k] < items.len() && 0 < items[order[k] as int].weight
            <= cap
}

/// Every zero-weight item is marked in the decision bits.
pub open spec fn free_items_marked(items: Seq<KnapsackItem>, bits: Seq<bool>) -> bool {
    &&& bits.len() == items.len()
    &&& forall|j: int| 0 <= j < items.len() && items[j].weight == 0 ==> bits[j]
}

/// Total weight of the items whose bit is set, among the first `i`.
pub open spec fn bits_weight(items: Seq<KnapsackItem>, bits: Seq<bool>, i: int) -> int
    decreases i,
{
    if i <= 0 {
        0
    } else {
        bits_weight(items, bits, i - 1) + if bits[i - 1] {
            items[i - 1].weight as int
        } else {
            0
        }
    }
}

/// Total profit of the items whose bit is set, among the first `i`.
pub open spec fn bits_profit(items: Seq<KnapsackItem>, bits: Seq<bool>, i: int) -> int
    decreases i,
{
    if i <= 0 {
        0
    } else {
        bits_profit(items, bits, i - 1) + if bits[i - 1] {
            items[i - 1].profit as int
        } else {
            0
        }
    }
}

proof fn lemma_bits_none(items: Seq<KnapsackItem>, bits: Seq<bool>, i: int)
    requires
        0 <= i <= bits.len(),
        forall|j: int| 0 <= j < i ==> !bits[j],
    ensures
        bits_profit(items, bits, i) == 0,
    decreases i,
{
    if i > 0 {
        lemma_bits_none(items, bits, i - 1);
    }
}

proof fn lemma_bits_profit_bound(items: Seq<KnapsackItem>, bits: Seq<bool>, i: int)
    requires
        0 <= i <= bits.len(),
    ensures
        0 <= bits_profit(items, bits, i) <= prefix_profit(items, i),
    decreases i,
{
    if i > 0 {
        lemma_bits_profit_bound(items, bits, i - 1);
    }
}

proof fn lemma_bits_weight_set(items: Seq<KnapsackItem>, bits: Seq<bool>, idx: int, i: int)
    requires
        0 <= idx < bits.len(),
        0 <= i <= bits.len(),
        !bits[idx],
    ensures
        bits_weight(items, bits.update(idx, true), i) == bits_weight(items, bits, i) + if idx < i {
            items[idx].weight as int
        } else {
            0
        },
        bits_profit(items, bits.update(idx, true), i) == bits_profit(items, bits, i) + if idx < i {
            items[idx].profit as int
        } else {
            0
        },
    decreases i,
{
    if i > 0 {
        lemma_bits_weight_set(items, bits, idx, i - 1);
    }
}

proof fn lemma_bits_weight_bound(items: Seq<KnapsackItem>, bits: Seq<bool>, i: int)
    requires
        0 <= i <= bits.len(),
    ensures
        bits_weight(items, bits, i) <= prefix_weight(items, i),
    decreases i,
{
    if i > 0 {
        lemma_bits_weight_bound(items, bits, i - 1);
    }
}

proof fn lemma_bits_weight_free(items: Seq<KnapsackItem>, bits: Seq<bool>, i: int)
    requires
        0 <= i <= bits.len(),
        forall|j: int| 0 <= j < i && bits[j] ==> items[j].weight == 0,
    ensures
        bits_weight(items, bits, i) == 0,
    decreases i,
{
    if i > 0 {
        lemma_bits_weight_free(items, bits, i - 1);
    }
}

proof fn lemma_prefix_profit_nonneg(items: Seq<KnapsackItem>)
    ensures
        prefix_profit(items, items.len() as int) >= 0,
{
    crate::knapsack::model::lemma_prefix_profit_monotone(items, 0, items.len() as int);
}

proof fn lemma_item_weight_at_most_prefix(items: Seq<KnapsackItem>, j: int, n: int)
    requires
        0 <= j < n <= items.len(),
    ensures
        items[j].weight <= prefix_weight(items, n),
{
    lemma_prefix_weight_monotone(items, j + 1, n);
    lemma_prefix_weight_monotone(items, 0, j);
}

/// Splits the items: zero-weight ones are marked in the decision bits and
/// their profit summed; those that fit on their own are listed by position,
/// most efficient first; the rest are dropped.
fn prepare_items(input: &KnapsackInput) -> (r: (Vec<usize>, DecisionVec, u64))
    requires
        input.total_profit() <= u64::MAX,
        input.items_view().len() <= usize::MAX >> 3usize,
    ensures
        order_ok(input.items_view(), r.0@, input.capacity_view() as int),
        r.0@.len() <= input.items_view().len(),
        free_items_marked(input.items_view(), bits_of(r.1)),
        forall|j: int| 0 <= j < input.items_view().len() && bits_of(r.1)[j] ==> input.items_view()[j].weight == 0,
        r.0@.no_duplicates(),
        forall|j: int|
            0 <= j < input.items_view().len() && 0 < (#[trigger] input.items_view()[j]).weight
                <= input.capacity_view() ==> r.0@.contains(j as usize),
        bits_profit(input.items_view(), bits_of(r.1), input.items_view().len() as int) == r.2,
        sorted_by_efficiency(input.items_view(), r.0@),
{
    let items = input.items();
    let cap = input.capacity();
    let n: usize = items.len();
    let mut decision_vec = new_decision_vec(n);
    proof {
        lemma_bits_none(items@, bits_of(decision_vec), n as int);
    }
    let mut base_profit: u64 = 0;
    let mut order: Vec<usize> = Vec::new();
    let mut i: usize = 0;
    while i < n
        invariant
            n == items@.len(),
            items@ == input.items_view(),
            cap == input.capacity_view(),
            0 <= i <= n,
            order@.len() <= i,
            order_ok(items@, order@, cap as int),
            forall|k: int| 0 <= k < order@.len() ==> order@[k] < i,
            forall|a: int, b: int| 0 <= a < b < order@.len() ==> order@[a] < order@[b],
            forall|j: int| 0 <= j < i && 0 < (#[trigger] items@[j]).weight <= cap ==> order@.contains(j as usize),
            base_profit <= prefix_profit(items@, i as int),
            prefix_profit(items@, n as int) <= u64::MAX,
            bits_of(decision_vec).len() == n,
            forall|j: int| 0 <= j < i && items@[j].weight == 0 ==> bits_of(decision_vec)[j],
            forall|j: int| 0 <= j < n && bits_of(decision_vec)[j] ==> items@[j].weight == 0 && j < i,
            bits_profit(items@, bits_of(decision_vec), n as int) == base_profit,
        decreases n - i,
    {
        proof {
            crate::knapsack::model::lemma_prefix_profit_monotone(items@, i as int + 1, n as int);
        }
        let item = items[i];
        if item.weight == 0 {
            proof {
                lemma_bits_weight_set(items@, bits_of(decision_vec), i as int, n as int);
            }
            set_decision(&mut decision_vec, i, true);
            base_profit = base_profit + item.profit;
        } else if item.weight <= cap {
            let ghost prev = order@;
            order.push(i);
            proof {
                assert forall|j: int| 0 <= j < i + 1 && 0 < (#[trigger] items@[j]).weight <= cap implies order@.contains(j as usize) by {
                    if j < i {
                        let k = choose|k: int| 0 <= k < prev.len() && prev[k] == j as usize;
                        assert(order@[k] == j as usize);
                    } else {
                        assert(order@[order@.len() - 1] == j as usize);
                    }
                }
            }
        }
        i += 1;
    }
    let ghost before = order@;
    sort_by_efficiency(&mut order, items);
    proof {
        assert forall|k: int| 0 <= k < order@.len() implies order@[k] < items@.len() && 0
            < items@[order@[k] as int].weight <= cap by {
            let x = order@[k];
            assert(order@.contains(x));
            order@.to_multiset_ensures();
            before.to_multiset_ensures();
            assert(order@.to_multiset().count(x) > 0);
            assert(before.to_multiset().count(x) > 0);
            assert(before.contains(x));
        }
        order@.to_multiset_ensures();
        before.to_multiset_ensures();
        assert(before.no_duplicates());
        before.lemma_multiset_has_no_duplicates();
        assert forall|x: usize| order@.to_multiset().contains(x) implies order@.to_multiset().count(x) == 1 by {
            assert(before.to_multiset().contains(x));
        }
        order@.lemma_multiset_has_no_duplicates_conv();
        assert forall|j: int|
            0 <= j < n && 0 < (#[trigger] items@[j]).weight <= cap implies order@.contains(j as usize) by {
            assert(before.contains(j as usize));
            assert(before.to_multiset().count(j as usize) > 0);
            assert(order@.to_multiset().count(j as usize) > 0);
        }
    }
    (order, decision_vec, base_profit)
}

/// The next position of the greedy prefix is not marked yet: it has positive
/// weight, and the positions before it name other items.
proof fn lemma_break_next_unset(items: Seq<KnapsackItem>, order: Seq<usize>, bits: Seq<bool>, i: int)
    requires
        0 <= i < order.len(),
        order.no_duplicates(),
        order[i] < items.len(),
        items[order[i] as int].weight > 0,
        forall|j: int|
            0 <= j < items.len() && bits[j] ==> items[j].weight == 0 || exists|k: int|
                0 <= k < i && order[k] == j,
    ensures
        !bits[order[i] as int],
{
    let j = order[i] as int;
    if bits[j] {
        let k = choose|k: int| 0 <= k < i && order[k] == j;
        assert(order[k] == order[i]);
    }
}

proof fn lemma_break_later_unset(items: Seq<KnapsackItem>, order: Seq<usize>, bits: Seq<bool>, i: int, x: int)
    requires
        0 <= i <= x < order.len(),
        order.no_duplicates(),
        order[x] < items.len(),
        items[order[x] as int].weight > 0,
        forall|j: int|
            0 <= j < items.len() && bits[j] ==> items[j].weight == 0 || exists|k: int|
                0 <= k < i && order[k] == j,
    ensures
        !bits[order[x] as int],
{
    let j = order[x] as int;
    if bits[j] {
        let k = choose|k: int| 0 <= k < i && order[k] == j;
        assert(order[k] == order[x]);
    }
}

/// The greedy prefix along the efficiency order: items at positions below
/// `break_index` fit together; the one at `break_index`, if any, does not.
#[derive(Clone, Copy)]
struct BreakSolution {
    break_index: usize,
    total_profit: u128,
    total_weight: u128,
}

impl BreakSolution {
    fn new(input: &KnapsackInput, efficiency_ordering: &Vec<usize>, decision_vec: &mut DecisionVec) -> (r:
        Self)
        requires
            order_ok(input.items_view(), efficiency_ordering@, input.capacity_view() as int),
            free_items_marked(input.items_view(), bits_of(*old(decision_vec))),
            efficiency_ordering@.no_duplicates(),
            forall|j: int|
                0 <= j < input.items_view().len() && bits_of(*old(decision_vec))[j]
                    ==> input.items_view()[j].weight == 0,
        ensures
            free_items_marked(input.items_view(), bits_of(*final(decision_vec))),
            forall|k: int|
                0 <= k < r.break_index ==> bits_of(*final(decision_vec))[#[trigger] efficiency_ordering@[k] as int],
            prefix_weight(input.items_view(), input.items_view().len() as int)
                <= input.capacity_view() ==> r.break_index == efficiency_ordering@.len(),
            r.break_index <= efficiency_ordering@.len(),
            r.total_weight == order_weight(input.items_view(), efficiency_ordering@, r.break_index as int),
            r.total_profit == order_profit(input.items_view(), efficiency_ordering@, r.break_index as int),
            r.total_weight <= input.capacity_view(),
            r.break_index < efficiency_ordering@.len() ==> r.total_weight
                + input.items_view()[efficiency_ordering@[r.break_index as int] as int].weight
                > input.capacity_view(),
            forall|x: int|
                0 <= x < efficiency_ordering@.len() ==> bits_of(*final(decision_vec))[#[trigger] efficiency_ordering@[x] as int]
                    == (x < r.break_index),
            bits_weight(
                input.items_view(),
                bits_of(*final(decision_vec)),
                input.items_view().len() as int,
            ) == r.total_weight,
            bits_profit(
                input.items_view(),
                bits_of(*final(decision_vec)),
                input.items_view().len() as int,
            ) == bits_profit(
                input.items_view(),
                bits_of(*old(decision_vec)),
                input.items_view().len() as int,
            ) + r.total_profit,
    {
        let items = input.items();
        let cap = input.capacity() as u128;
        let mut total_profit: u128 = 0;
        let mut total_weight: u128 = 0;
        let mut i: usize = 0;
        proof {
            lemma_bits_weight_free(items@, bits_of(*decision_vec), items@.len() as int);
        }
        while i < efficiency_ordering.len() && total_weight + items[efficiency_ordering[i]].weight
            as u128 <= cap
            invariant
                items@ == input.items_view(),
                cap == input.capacity_view(),
                order_ok(items@, efficiency_ordering@, cap as int),
                0 <= i <= efficiency_ordering@.len(),
                total_weight == order_weight(items@, efficiency_ordering@, i as int),
                total_profit == order_profit(items@, efficiency_ordering@, i as int),
                total_weight <= cap,
                free_items_marked(items@, bits_of(*decision_vec)),
                efficiency_ordering@.no_duplicates(),
                forall|j: int|
                    0 <= j < items@.len() && bits_of(*decision_vec)[j] ==> items@[j].weight == 0
                        || exists|k: int| 0 <= k < i && efficiency_ordering@[k] == j,
                forall|k: int| 0 <= k < i ==> bits_of(*decision_vec)[#[trigger] efficiency_ordering@[k] as int],
                bits_weight(items@, bits_of(*decision_vec), items@.len() as int) == total_weight,
                bits_profit(items@, bits_of(*decision_vec), items@.len() as int) == bits_profit(
                    items@,
                    bits_of(*old(decision_vec)),
                    items@.len() as int,
                ) + total_profit,
            decreases efficiency_ordering@.len() - i,
        {
            let idx = efficiency_ordering[i];
            let item = items[idx];
            proof {
                lemma_break_next_unset(items@, efficiency_ordering@, bits_of(*decision_vec), i as int);
                lemma_bits_weight_set(items@, bits_of(*decision_vec), idx as int, items@.len() as int);
            }
            let ghost before = bits_of(*decision_vec);
            proof {
                lemma_order_profit_bound(items@, efficiency_ordering@, i as int + 1);
                assert((i as int + 1) * 0xffff_ffff_ffff_ffffint <= 0x1_0000_0000_0000_0000int
                    * 0xffff_ffff_ffff_ffffint) by (nonlinear_arith)
                    requires
                        i < 0x1_0000_0000_0000_0000int,
                ;
            }
            total_weight = total_weight + item.weight as u128;
            total_profit = total_profit + item.profit as u128;
            set_decision(decision_vec, idx, true);
            proof {
                assert forall|j: int|
                    0 <= j < items@.len() && bits_of(*decision_vec)[j] implies items@[j].weight == 0
                        || exists|k: int| 0 <= k < i + 1 && efficiency_ordering@[k] == j by {
                    if j != idx {
                        assert(before[j]);
                        if items@[j].weight != 0 {
                            let k = choose|k: int| 0 <= k < i && efficiency_ordering@[k] == j;
                            assert(0 <= k < i + 1 && efficiency_ordering@[k] == j);
                        }
                    } else {
                        assert(efficiency_ordering@[i as int] == j);
                    }
                }
            }
            i += 1;
        }
        proof {
            assert forall|x: int| 0 <= x < efficiency_ordering@.len() implies bits_of(*decision_vec)[#[trigger] efficiency_ordering@[x] as int]
                == (x < i) by {
                if x >= i {
                    lemma_break_later_unset(items@, efficiency_ordering@, bits_of(*decision_vec), i as int, x);
                }
            }
            if i < efficiency_ordering@.len() {
                let idx = efficiency_ordering@[i as int];
                lemma_break_next_unset(items@, efficiency_ordering@, bits_of(*decision_vec), i as int);
                lemma_bits_weight_set(items@, bits_of(*decision_vec), idx as int, items@.len() as int);
                lemma_bits_weight_bound(items@, bits_of(*decision_vec).update(idx as int, true), items@.len() as int);
            }
        }
        BreakSolution { break_index: i, total_profit, total_weight }
    }
}

proof fn lemma_order_profit_fits(items: Seq<KnapsackItem>, order: Seq<usize>, k: int)
    requires
        0 <= k <= usize::MAX,
    ensures
        order_profit(items, order, k) <= 0xffff_ffff_ffff_fffe_0000_0000_0000_0001int,
{
    lemma_order_profit_bound(items, order, k);
    assert(k * 0xffff_ffff_ffff_ffffint <= 0xffff_ffff_ffff_ffffint * 0xffff_ffff_ffff_ffffint)
        by (nonlinear_arith)
        requires
            0 <= k <= 0xffff_ffff_ffff_ffffint,
    ;
}

/// The weight that the first `k` decisions add to the break solution: a
/// decision taken at a position at or above `b` adds that item, one taken
/// below `b` removes it.
pub open spec fn dev_weight(
    items: Seq<KnapsackItem>,
    order: Seq<usize>,
    trav: Seq<usize>,
    b: int,
    decs: Seq<bool>,
    k: int,
) -> int
    decreases k,
{
    if k <= 0 {
        0
    } else {
        dev_weight(items, order, trav, b, decs, k - 1) + if decs[k - 1] {
            let w = items[order[trav[k - 1] as int] as int].weight as int;
            if trav[k - 1] >= b {
                w
            } else {
                -w
            }
        } else {
            0
        }
    }
}

/// The profit that the first `k` decisions add to the break solution.
pub open spec fn dev_profit(
    items: Seq<KnapsackItem>,
    order: Seq<usize>,
    trav: Seq<usize>,
    b: int,
    decs: Seq<bool>,
    k: int,
) -> int
    decreases k,
{
    if k <= 0 {
        0
    } else {
        dev_profit(items, order, trav, b, decs, k - 1) + if decs[k - 1] {
            let p = items[order[trav[k - 1] as int] as int].profit as int;
            if trav[k - 1] >= b {
                p
            } else {
                -p
            }
        } else {
            0
        }
    }
}

proof fn lemma_dev_same(
    items: Seq<KnapsackItem>,
    order: Seq<usize>,
    t1: Seq<usize>,
    t2: Seq<usize>,
    b: int,
    d1: Seq<bool>,
    d2: Seq<bool>,
    k: int,
)
    requires
        0 <= k,
        forall|j: int| 0 <= j < k ==> d1[j] == d2[j] && (d1[j] ==> t1[j] == t2[j]),
    ensures
        dev_weight(items, order, t1, b, d1, k) == dev_weight(items, order, t2, b, d2, k),
        dev_profit(items, order, t1, b, d1, k) == dev_profit(items, order, t2, b, d2, k),
    decreases k,
{
    if k > 0 {
        lemma_dev_same(items, order, t1, t2, b, d1, d2, k - 1);
    }
}

/// The decision vector after applying the decisions at `lo..hi` to `base`.
pub open spec fn applied(
    base: Seq<bool>,
    order: Seq<usize>,
    trav: Seq<usize>,
    b: int,
    decs: Seq<bool>,
    lo: int,
    hi: int,
) -> Seq<bool>
    decreases hi - lo,
{
    if lo >= hi {
        base
    } else {
        let rest = applied(base, order, trav, b, decs, lo + 1, hi);
        if decs[lo] {
            rest.update(order[trav[lo] as int] as int, !(trav[lo] < b))
        } else {
            rest
        }
    }
}

/// The traversal log names distinct positions of the order.
pub open spec fn trav_ok(order: Seq<usize>, trav: Seq<usize>) -> bool {
    &&& order.no_duplicates()
    &&& trav.no_duplicates()
    &&& forall|k: int| 0 <= k < trav.len() ==> #[trigger] trav[k] < order.len()
}

proof fn lemma_applied_untouched(
    base: Seq<bool>,
    order: Seq<usize>,
    trav: Seq<usize>,
    b: int,
    decs: Seq<bool>,
    lo: int,
    hi: int,
    x: int,
)
    requires
        0 <= lo,
        hi <= decs.len(),
        trav_ok(order, trav),
        forall|k: int| lo <= k < hi && decs[k] ==> k < trav.len(),
        forall|k: int| lo <= k < hi && decs[k] ==> order[trav[k] as int] < base.len(),
        forall|k: int| lo <= k < hi && decs[k] ==> order[trav[k] as int] != x,
        0 <= x < base.len(),
    ensures
        applied(base, order, trav, b, decs, lo, hi).len() == base.len(),
        applied(base, order, trav, b, decs, lo, hi)[x] == base[x],
    decreases hi - lo,
{
    if lo < hi {
        lemma_applied_untouched(base, order, trav, b, decs, lo + 1, hi, x);
    }
}

proof fn lemma_bits_weight_clear(items: Seq<KnapsackItem>, bits: Seq<bool>, idx: int, i: int)
    requires
        0 <= idx < bits.len(),
        0 <= i <= bits.len(),
        bits[idx],
    ensures
        bits_weight(items, bits.update(idx, false), i) == bits_weight(items, bits, i) - if idx < i {
            items[idx].weight as int
        } else {
            0
        },
        bits_profit(items, bits.update(idx, false), i) == bits_profit(items, bits, i) - if idx < i {
            items[idx].profit as int
        } else {
            0
        },
    decreases i,
{
    if i > 0 {
        lemma_bits_weight_clear(items, bits, idx, i - 1);
    }
}

/// Applying decisions changes the weight of the marked items by their deviation.
proof fn lemma_applied_weight(
    items: Seq<KnapsackItem>,
    base: Seq<bool>,
    order: Seq<usize>,
    trav: Seq<usize>,
    b: int,
    decs: Seq<bool>,
    lo: int,
    hi: int,
)
    requires
        0 <= lo <= hi <= decs.len(),
        base.len() == items.len(),
        trav_ok(order, trav),
        forall|k: int| 0 <= k < order.len() ==> #[trigger] order[k] < items.len(),
        forall|k: int| 0 <= k < order.len() ==> base[#[trigger] order[k] as int] == (k < b),
        forall|k: int| lo <= k < hi && decs[k] ==> k < trav.len(),
    ensures
        bits_weight(items, applied(base, order, trav, b, decs, lo, hi), items.len() as int)
            == bits_weight(items, base, items.len() as int) + dev_weight(items, order, trav, b, decs, hi)
            - dev_weight(items, order, trav, b, decs, lo),
        bits_profit(items, applied(base, order, trav, b, decs, lo, hi), items.len() as int)
            == bits_profit(items, base, items.len() as int) + dev_profit(items, order, trav, b, decs, hi)
            - dev_profit(items, order, trav, b, decs, lo),
        applied(base, order, trav, b, decs, lo, hi).len() == base.len(),
    decreases hi - lo,
{
    if lo < hi {
        lemma_applied_weight(items, base, order, trav, b, decs, lo + 1, hi);
        lemma_dev_split(items, order, trav, b, decs, lo, hi);
        if decs[lo] {
            let x = order[trav[lo] as int] as int;
            assert forall|k: int| lo + 1 <= k < hi && decs[k] implies order[trav[k] as int] != x by {
                assert(trav[k] != trav[lo]);
                assert(order[trav[k] as int] != order[trav[lo] as int]);
            }
            assert forall|k: int| lo + 1 <= k < hi && decs[k] implies order[trav[k] as int] < base.len() by {
                assert(trav[k] < order.len());
            }
            lemma_applied_untouched(base, order, trav, b, decs, lo + 1, hi, x);
            let rest = applied(base, order, trav, b, decs, lo + 1, hi);
            assert(trav[lo] < order.len());
            if trav[lo] < b {
                lemma_bits_weight_clear(items, rest, x, items.len() as int);
            } else {
                lemma_bits_weight_set(items, rest, x, items.len() as int);
            }
        }
    }
}

proof fn lemma_dev_split(
    items: Seq<KnapsackItem>,
    order: Seq<usize>,
    trav: Seq<usize>,
    b: int,
    decs: Seq<bool>,
    lo: int,
    hi: int,
)
    requires
        0 <= lo < hi,
    ensures
        dev_weight(items, order, trav, b, decs, lo + 1) - dev_weight(items, order, trav, b, decs, lo)
            == if decs[lo] {
            let w = items[order[trav[lo] as int] as int].weight as int;
            if trav[lo] >= b {
                w
            } else {
                -w
            }
        } else {
            0
        },
        dev_profit(items, order, trav, b, decs, lo + 1) - dev_profit(items, order, trav, b, decs, lo)
            == if decs[lo] {
            let p = items[order[trav[lo] as int] as int].profit as int;
            if trav[lo] >= b {
                p
            } else {
                -p
            }
        } else {
            0
        },
{
}

proof fn lemma_applied_none(
    base: Seq<bool>,
    order: Seq<usize>,
    trav: Seq<usize>,
    b: int,
    decs: Seq<bool>,
    lo: int,
    hi: int,
)
    requires
        forall|k: int| lo <= k < hi ==> !decs[k],
    ensures
        applied(base, order, trav, b, decs, lo, hi) == base,
    decreases hi - lo,
{
    if lo < hi {
        lemma_applied_none(base, order, trav, b, decs, lo + 1, hi);
    }
}

proof fn lemma_mod64(len: int)
    requires
        len >= 1,
    ensures
        len % 64 == 0 ==> (len - 1) % 64 == 63 && len >= 64,
        len % 64 != 0 ==> (len - 1) % 64 + 1 == len % 64,
{
    let q = len / 64;
    let r = len % 64;
    vstd::arithmetic::div_mod::lemma_fundamental_div_mod(len, 64);
    if r == 0 {
        assert(len == 64 * q);
        assert(q >= 1);
        vstd::arithmetic::div_mod::lemma_fundamental_div_mod_converse_mod(len - 1, 64, q - 1, 63);
    } else {
        vstd::arithmetic::div_mod::lemma_fundamental_div_mod_converse_mod(len - 1, 64, q, r - 1);
    }
}

proof fn lemma_no_dup_push(t: Seq<usize>, x: usize)
    requires
        t.no_duplicates(),
        !t.contains(x),
    ensures
        t.push(x).no_duplicates(),
{
    assert forall|i: int, j: int| 0 <= i < t.len() + 1 && 0 <= j < t.len() + 1 && i != j implies t.push(
        x,
    )[i] != t.push(x)[j] by {
        if i == t.len() {
            assert(t.contains(t[j]));
        } else if j == t.len() {
            assert(t.contains(t[i]));
        }
    }
}

/// The positions of `sel` as a mask over `n` items.
pub open spec fn sel_mask(sel: Seq<usize>, n: int) -> Seq<bool> {
    Seq::new(n as nat, |j: int| sel.contains(j as usize))
}

/// The mask of the zero-weight items.
pub open spec fn zero_bits(items: Seq<KnapsackItem>) -> Seq<bool> {
    Seq::new(items.len(), |j: int| items[j].weight == 0)
}

/// `mask` restricted to the items at the first `k` positions of `order`.
pub open spec fn gathered(mask: Seq<bool>, order: Seq<usize>, k: int) -> Seq<bool>
    decreases k,
{
    if k <= 0 {
        Seq::new(mask.len(), |j: int| false)
    } else {
        let g = gathered(mask, order, k - 1);
        if mask[order[k - 1] as int] {
            g.update(order[k - 1] as int, true)
        } else {
            g
        }
    }
}

proof fn lemma_bits_same(items: Seq<KnapsackItem>, a: Seq<bool>, b: Seq<bool>, k: int)
    requires
        forall|j: int| 0 <= j < k ==> a[j] == b[j],
    ensures
        bits_weight(items, a, k) == bits_weight(items, b, k),
        bits_profit(items, a, k) == bits_profit(items, b, k),
    decreases k,
{
    if k > 0 {
        lemma_bits_same(items, a, b, k - 1);
    }
}

proof fn lemma_bits_mono(items: Seq<KnapsackItem>, a: Seq<bool>, b: Seq<bool>, k: int)
    requires
        forall|j: int| 0 <= j < k && a[j] ==> b[j],
    ensures
        bits_weight(items, a, k) <= bits_weight(items, b, k),
        bits_profit(items, a, k) <= bits_profit(items, b, k),
    decreases k,
{
    if k > 0 {
        lemma_bits_mono(items, a, b, k - 1);
    }
}

proof fn lemma_bits_split(items: Seq<KnapsackItem>, a: Seq<bool>, b: Seq<bool>, c: Seq<bool>, k: int)
    requires
        forall|j: int| 0 <= j < k ==> a[j] == (b[j] || c[j]) && !(b[j] && c[j]),
    ensures
        bits_profit(items, a, k) == bits_profit(items, b, k) + bits_profit(items, c, k),
    decreases k,
{
    if k > 0 {
        lemma_bits_split(items, a, b, c, k - 1);
    }
}

proof fn lemma_sel_bits(items: Seq<KnapsackItem>, sel: Seq<usize>, k: int, n: int)
    requires
        is_selection(sel, k),
        0 <= k <= n,
        n <= usize::MAX,
    ensures
        sum_weight(items, sel) == bits_weight(items, sel_mask(sel, n), k),
        sum_profit(items, sel) == bits_profit(items, sel_mask(sel, n), k),
    decreases k,
{
    if k == 0 {
        if sel.len() > 0 {
            assert(sel[0] < 0);
        }
    } else if sel.len() > 0 && sel.last() == k - 1 {
        let d = sel.drop_last();
        assert(is_selection(d, k - 1)) by {
            assert forall|t: int| 0 <= t < d.len() implies d[t] < k - 1 by {
                assert(sel[t] < sel[sel.len() - 1]);
            }
        }
        lemma_sel_bits(items, d, k - 1, n);
        assert forall|j: int| 0 <= j < k - 1 implies sel_mask(d, n)[j] == sel_mask(sel, n)[j] by {
            if sel.contains(j as usize) {
                let t = choose|t: int| 0 <= t < sel.len() && sel[t] == j as usize;
                assert(t != sel.len() - 1);
                assert(d[t] == j as usize);
            }
            if d.contains(j as usize) {
                let t = choose|t: int| 0 <= t < d.len() && d[t] == j as usize;
                assert(sel[t] == j as usize);
            }
        }
        lemma_bits_same(items, sel_mask(d, n), sel_mask(sel, n), k - 1);
        assert(sel_mask(sel, n)[k - 1]) by {
            assert(sel[sel.len() - 1] == (k - 1) as usize);
        }
    } else {
        assert(is_selection(sel, k - 1)) by {
            assert forall|t: int| 0 <= t < sel.len() implies sel[t] < k - 1 by {
                if t < sel.len() - 1 {
                    assert(sel[t] < sel[sel.len() - 1]);
                }
            }
        }
        lemma_sel_bits(items, sel, k - 1, n);
        assert(!sel_mask(sel, n)[k - 1]) by {
            if sel.contains((k - 1) as usize) {
                let t = choose|t: int| 0 <= t < sel.len() && sel[t] == (k - 1) as usize;
                assert(sel[t] < k - 1);
            }
        }
    }
}

proof fn lemma_elem_le_sum(items: Seq<KnapsackItem>, sel: Seq<usize>, j: usize)
    requires
        sel.contains(j),
    ensures
        items[j as int].weight <= sum_weight(items, sel),
    decreases sel.len(),
{
    crate::knapsack::model::lemma_sums_nonneg(items, sel.drop_last());
    if sel.last() != j {
        let t = choose|t: int| 0 <= t < sel.len() && sel[t] == j;
        assert(sel.drop_last()[t] == j);
        lemma_elem_le_sum(items, sel.drop_last(), j);
        assert(items[sel.last() as int].weight >= 0);
    }
}

proof fn lemma_gathered(items: Seq<KnapsackItem>, mask: Seq<bool>, order: Seq<usize>, k: int)
    requires
        mask.len() == items.len(),
        order.no_duplicates(),
        forall|x: int| 0 <= x < order.len() ==> #[trigger] order[x] < items.len(),
        0 <= k <= order.len(),
    ensures
        gathered(mask, order, k).len() == items.len(),
        forall|x: int| 0 <= x < k ==> gathered(mask, order, k)[#[trigger] order[x] as int] == mask[order[x] as int],
        forall|j: int| 0 <= j < items.len() && #[trigger] gathered(mask, order, k)[j] ==> mask[j],
        forall|j: int|
            0 <= j < items.len() && (forall|x: int| 0 <= x < k ==> order[x] != j) ==> !(
            #[trigger] gathered(mask, order, k)[j]),
        bits_weight(items, gathered(mask, order, k), items.len() as int) == crate::knapsack::exactness::zw(
            items,
            order,
            Seq::new(order.len(), |x: int| mask[order[x] as int]),
            0,
            order.len() as int,
            k,
        ),
        bits_profit(items, gathered(mask, order, k), items.len() as int) == crate::knapsack::exactness::zp(
            items,
            order,
            Seq::new(order.len(), |x: int| mask[order[x] as int]),
            0,
            order.len() as int,
            k,
        ),
    decreases k,
{
    let n = items.len() as int;
    if k == 0 {
        lemma_bits_none(items, gathered(mask, order, 0), n);
        lemma_bits_weight_free(items, gathered(mask, order, 0), n);
    } else {
        lemma_gathered(items, mask, order, k - 1);
        let g = gathered(mask, order, k - 1);
        let idx = order[k - 1] as int;
        if mask[idx] {
            assert(!g[idx]) by {
                assert forall|x: int| 0 <= x < k - 1 implies order[x] != idx by {
                    assert(order[x] != order[k - 1]);
                }
            }
            lemma_bits_weight_set(items, g, idx, n);
        }
        assert forall|x: int| 0 <= x < k implies gathered(mask, order, k)[#[trigger] order[x] as int] == mask[order[x] as int] by {
            if x < k - 1 {
                assert(order[x] != order[k - 1]);
            }
        }
    }
}

/// The items whose bit is set among the first `k`, ascending.
spec fn bits_sel(bits: Seq<bool>, k: int) -> Seq<usize>
    decreases k,
{
    if k <= 0 {
        Seq::empty()
    } else if bits[k - 1] {
        bits_sel(bits, k - 1).push((k - 1) as usize)
    } else {
        bits_sel(bits, k - 1)
    }
}

/// Marked items that fit together earn at most the optimum.
proof fn lemma_bits_at_most_best(items: Seq<KnapsackItem>, bits: Seq<bool>, k: int, cap: int)
    requires
        0 <= k <= items.len(),
        k <= usize::MAX,
        bits_weight(items, bits, k) <= cap,
    ensures
        bits_profit(items, bits, k) <= best_value(items, k, cap),
{
    lemma_bits_sel(items, bits, k);
    lemma_best_upper(items, bits_sel(bits, k), k, cap);
}

proof fn lemma_bits_sel(items: Seq<KnapsackItem>, bits: Seq<bool>, k: int)
    requires
        0 <= k <= usize::MAX,
    ensures
        is_selection(bits_sel(bits, k), k),
        sum_weight(items, bits_sel(bits, k)) == bits_weight(items, bits, k),
        sum_profit(items, bits_sel(bits, k)) == bits_profit(items, bits, k),
    decreases k,
{
    if k > 0 {
        lemma_bits_sel(items, bits, k - 1);
        if bits[k - 1] {
            lemma_sum_push(items, bits_sel(bits, k - 1), (k - 1) as usize);
            lemma_selection_push(bits_sel(bits, k - 1), k - 1);
        } else {
            assert(is_selection(bits_sel(bits, k), k));
        }
    }
}

/// Some optimal selection, seen through the efficiency order: the positions it
/// takes fit, and with the zero-weight items they reach the optimum.
proof fn lemma_opt_mask(items: Seq<KnapsackItem>, order: Seq<usize>, cap: int, base: int) -> (o:
    Seq<bool>)
    requires
        order.no_duplicates(),
        order_ok(items, order, cap),
        forall|j: int|
            0 <= j < items.len() && 0 < (#[trigger] items[j]).weight <= cap ==> order.contains(
                j as usize,
            ),
        base == bits_profit(items, zero_bits(items), items.len() as int),
        cap >= 0,
        items.len() <= usize::MAX,
    ensures
        o.len() == order.len(),
        crate::knapsack::exactness::zw(items, order, o, 0, order.len() as int, order.len() as int)
            <= cap,
        best_value(items, items.len() as int, cap) <= base + crate::knapsack::exactness::zp(
            items,
            order,
            o,
            0,
            order.len() as int,
            order.len() as int,
        ),
{
    let n = items.len() as int;
    let m = order.len() as int;
    let opt = crate::knapsack::model::lemma_best_witness(items, n, cap);
    let mask = sel_mask(opt, n);
    lemma_sel_bits(items, opt, n, n);
    lemma_gathered(items, mask, order, m);
    let g = gathered(mask, order, m);
    let o = Seq::new(order.len(), |x: int| mask[order[x] as int]);
    lemma_bits_mono(items, g, mask, n);
    let rest = Seq::new(n as nat, |j: int| mask[j] && !g[j]);
    lemma_bits_split(items, mask, g, rest, n);
    assert forall|j: int| 0 <= j < n && rest[j] implies zero_bits(items)[j] by {
        if items[j].weight > 0 {
            lemma_elem_le_sum(items, opt, j as usize);
            assert(order.contains(j as usize));
            let x = choose|x: int| 0 <= x < order.len() && order[x] == j as usize;
            assert(g[order[x] as int] == mask[order[x] as int]);
        }
    }
    lemma_bits_mono(items, rest, zero_bits(items), n);
    o
}

/// A partial solution: the deviation of weight and profit from taking every
/// item, and the fragment of the decisions that led to it.
#[derive(Clone, Copy)]
struct MinKnapState {
    weight: u128,
    profit: u128,
    sol_fragment: SolutionFragment,
    /// Every decision this state took, one per traversal step.
    decisions: Ghost<Seq<bool>>,
}

/// The bound of `get_profit_upper_bound` for a state of this weight and
/// profit with the core `[s, t_next)`.
pub open spec fn upper_bound_of(
    items: Seq<KnapsackItem>,
    order: Seq<usize>,
    cap: int,
    s: int,
    t_next: int,
    weight: int,
    profit: int,
) -> int {
    if weight <= cap {
        if t_next >= order.len() {
            profit
        } else {
            let it = items[order[t_next] as int];
            let q = ((cap - weight) * it.profit) / (it.weight as int);
            if profit + q > u128::MAX {
                u128::MAX as int
            } else {
                profit + q
            }
        }
    } else {
        if s == 0 {
            profit
        } else {
            let it = items[order[s - 1] as int];
            let q = ((weight - cap) * it.profit) / (it.weight as int);
            if profit - q < 0 {
                0
            } else {
                profit - q
            }
        }
    }
}

/// Some state of `next` weighs at most `w` and earns at least `p`.
spec fn covered(next: Seq<MinKnapState>, w: int, p: int) -> bool {
    exists|k: int| 0 <= k < next.len() && (#[trigger] next[k]).weight <= w && next[k].profit >= p
}

/// A candidate of this weight and profit, within the weight cap and with an
/// upper bound above the lower bound, is matched by a state of `next`.
spec fn cand_ok(next: Seq<MinKnapState>, cw: int, cp: int, ub: int, lb: int, maxw: int) -> bool {
    cw <= maxw && ub > lb ==> covered(next, cw, cp)
}

/// The candidates already merged (the first `kh` kept states and the first
/// `ch` changed ones, changed by `dw`, `dp`) are all matched by `next`.
#[verifier::opaque]
spec fn covers_all(
    next: Seq<MinKnapState>,
    cur: Seq<MinKnapState>,
    kh: int,
    ch: int,
    dw: int,
    dp: int,
    lb: int,
    maxw: int,
    items: Seq<KnapsackItem>,
    order: Seq<usize>,
    cap: int,
    s: int,
    t: int,
) -> bool {
    &&& forall|j: int|
        0 <= j < kh ==> cand_ok(
            next,
            (#[trigger] cur[j]).weight as int,
            cur[j].profit as int,
            upper_bound_of(items, order, cap, s, t, cur[j].weight as int, cur[j].profit as int),
            lb,
            maxw,
        )
    &&& forall|j: int|
        0 <= j < ch ==> cand_ok(
            next,
            (#[trigger] cur[j]).weight + dw,
            cur[j].profit + dp,
            upper_bound_of(items, order, cap, s, t, cur[j].weight + dw, cur[j].profit + dp),
            lb,
            maxw,
        )
}

proof fn lemma_covers_start(
    cur: Seq<MinKnapState>,
    dw: int,
    dp: int,
    lb: int,
    maxw: int,
    items: Seq<KnapsackItem>,
    order: Seq<usize>,
    cap: int,
    s: int,
    t: int,
)
    ensures
        covers_all(Seq::empty(), cur, 0, 0, dw, dp, lb, maxw, items, order, cap, s, t),
{
    reveal(covers_all);
}

/// A larger lower bound, a grown frontier, or one more merged candidate that
/// is itself matched keep the candidates matched.
proof fn lemma_covers_step(
    next: Seq<MinKnapState>,
    next2: Seq<MinKnapState>,
    cur: Seq<MinKnapState>,
    kh: int,
    ch: int,
    kh2: int,
    ch2: int,
    dw: int,
    dp: int,
    lb: int,
    lb2: int,
    maxw: int,
    items: Seq<KnapsackItem>,
    order: Seq<usize>,
    cap: int,
    s: int,
    t: int,
)
    requires
        covers_all(next, cur, kh, ch, dw, dp, lb, maxw, items, order, cap, s, t),
        lb <= lb2,
        forall|w: int, p: int| covered(next, w, p) ==> covered(next2, w, p),
        kh <= kh2 <= kh + 1,
        ch <= ch2 <= ch + 1,
        kh2 == kh + 1 ==> cand_ok(
            next2,
            cur[kh].weight as int,
            cur[kh].profit as int,
            upper_bound_of(items, order, cap, s, t, cur[kh].weight as int, cur[kh].profit as int),
            lb2,
            maxw,
        ),
        ch2 == ch + 1 ==> cand_ok(
            next2,
            cur[ch].weight + dw,
            cur[ch].profit + dp,
            upper_bound_of(items, order, cap, s, t, cur[ch].weight + dw, cur[ch].profit + dp),
            lb2,
            maxw,
        ),
    ensures
        covers_all(next2, cur, kh2, ch2, dw, dp, lb2, maxw, items, order, cap, s, t),
{
    reveal(covers_all);
    assert forall|j: int| 0 <= j < kh2 implies cand_ok(
        next2,
        (#[trigger] cur[j]).weight as int,
        cur[j].profit as int,
        upper_bound_of(items, order, cap, s, t, cur[j].weight as int, cur[j].profit as int),
        lb2,
        maxw,
    ) by {
        if j < kh {
            let cw = cur[j].weight as int;
            let cp = cur[j].profit as int;
            assert(cand_ok(next, cw, cp, upper_bound_of(items, order, cap, s, t, cw, cp), lb, maxw));
        }
    }
    assert forall|j: int| 0 <= j < ch2 implies cand_ok(
        next2,
        (#[trigger] cur[j]).weight + dw,
        cur[j].profit + dp,
        upper_bound_of(items, order, cap, s, t, cur[j].weight + dw, cur[j].profit + dp),
        lb2,
        maxw,
    ) by {
        if j < ch {
            let cw = cur[j].weight + dw;
            let cp = cur[j].profit + dp;
            assert(cand_ok(next, cw, cp, upper_bound_of(items, order, cap, s, t, cw, cp), lb, maxw));
        }
    }
}

/// Every state of the frontier that fits has profit at most `lb`.
spec fn feasible_below(sts: Seq<MinKnapState>, cap: int, lb: int) -> bool {
    forall|k: int| 0 <= k < sts.len() && (#[trigger] sts[k]).weight <= cap ==> sts[k].profit <= lb
}

/// States with the same weights and profits match the same candidates.
proof fn lemma_covered_transfer(a: Seq<MinKnapState>, b: Seq<MinKnapState>, w: int, p: int)
    requires
        covered(a, w, p),
        a.len() == b.len(),
        forall|j: int|
            0 <= j < a.len() ==> (#[trigger] b[j]).weight == a[j].weight && b[j].profit == a[j].profit,
    ensures
        covered(b, w, p),
{
    let k = choose|k: int| 0 <= k < a.len() && (#[trigger] a[k]).weight <= w && a[k].profit >= p;
    assert(b[k].weight <= w);
}

/// One step of the core expansion keeps the optimal selection's projection
/// on the walls matched, unless the lower bound already reaches its profit.
/// The projection's candidate is the matching state kept, or changed by
/// `dw`, `dp` when the selection takes the item.
proof fn lemma_dominance_step(
    items: Seq<KnapsackItem>,
    order: Seq<usize>,
    cap: int,
    maxw: int,
    s: int,
    t: int,
    cur: Seq<MinKnapState>,
    next: Seq<MinKnapState>,
    lb_old: int,
    lb_new: int,
    vw: int,
    zw_old: int,
    zp_old: int,
    zw_new: int,
    zp_new: int,
    dw: int,
    dp: int,
    took: bool,
)
    requires
        crate::knapsack::exactness::order_valid(items, order),
        0 <= s <= t <= order.len(),
        cap >= 0,
        lb_old <= lb_new,
        lb_old >= vw || covered(cur, zw_old, zp_old),
        took ==> zw_new == zw_old + dw && zp_new == zp_old + dp,
        !took ==> zw_new == zw_old && zp_new == zp_old,
        zw_new <= maxw,
        0 <= zp_new,
        vw <= upper_bound_of(items, order, cap, s, t, zw_new, zp_new),
        forall|j: int| 0 <= j < cur.len() ==> (#[trigger] cur[j]).weight <= maxw,
        forall|j: int|
            0 <= j < cur.len() ==> (#[trigger] cur[j]).profit + dp <= u128::MAX,
        forall|j: int|
            0 <= j < cur.len() ==> ((#[trigger] cur[j]).weight <= maxw && upper_bound_of(
                items,
                order,
                cap,
                s,
                t,
                cur[j].weight as int,
                cur[j].profit as int,
            ) > lb_new ==> covered(next, cur[j].weight as int, cur[j].profit as int)),
        forall|j: int|
            0 <= j < cur.len() ==> ((#[trigger] cur[j]).weight + dw <= maxw && upper_bound_of(
                items,
                order,
                cap,
                s,
                t,
                cur[j].weight + dw,
                cur[j].profit + dp,
            ) > lb_new ==> covered(next, cur[j].weight + dw, cur[j].profit + dp)),
    ensures
        lb_new >= vw || covered(next, zw_new, zp_new),
{
    if lb_old < vw {
        let j = choose|j: int| 0 <= j < cur.len() && (#[trigger] cur[j]).weight <= zw_old && cur[j].profit >= zp_old;
        let (cw, cp) = if took {
            (cur[j].weight + dw, cur[j].profit + dp)
        } else {
            (cur[j].weight as int, cur[j].profit as int)
        };
        assert(cw <= zw_new && cp >= zp_new);
        assert(cw <= maxw);
        crate::knapsack::exactness::lemma_ub_mono(items, order, cap, s, t, cw, cp, zw_new, zp_new);
        if upper_bound_of(items, order, cap, s, t, cw, cp) > lb_new {
            assert(covered(next, cw, cp));
            let k = choose|k: int| 0 <= k < next.len() && (#[trigger] next[k]).weight <= cw && next[k].profit >= cp;
            assert(next[k].weight <= zw_new && next[k].profit >= zp_new);
        }
    }
}

/// A frontier ordered by strictly increasing weight and strictly increasing profit.
spec fn strictly_sorted(sts: Seq<MinKnapState>) -> bool {
    forall|a: int, b: int|
        0 <= a < b < sts.len() ==> (#[trigger] sts[a]).weight < (#[trigger] sts[b]).weight
            && sts[a].profit < sts[b].profit
}

/// `st` is `c` either left as it is or with the item applied (weight and
/// profit changed by `dw` and `dp`), with that decision recorded.
spec fn step_of(st: MinKnapState, c: MinKnapState, dw: int, dp: int) -> bool {
    ||| (st.weight == c.weight && st.profit == c.profit && st.decisions@
        == c.decisions@.push(false))
    ||| (st.weight == c.weight + dw && st.profit == c.profit + dp && st.decisions@
        == c.decisions@.push(true))
}

/// Every state of `next` comes from some state of `cur` by one step.
spec fn all_derived(next: Seq<MinKnapState>, cur: Seq<MinKnapState>, dw: int, dp: int) -> bool {
    forall|k: int|
        0 <= k < next.len() ==> exists|j: int|
            0 <= j < cur.len() && step_of(#[trigger] next[k], cur[j], dw, dp)
}

proof fn lemma_covered_after_push(
    old_next: Seq<MinKnapState>,
    new_next: Seq<MinKnapState>,
    st: MinKnapState,
    w: int,
    p: int,
)
    requires
        covered(old_next, w, p),
        old_next.len() > 0 ==> old_next.last().profit < st.profit,
        new_next.len() > 0,
        new_next.last() == st,
        new_next.len() == old_next.len() || new_next.len() == old_next.len() + 1,
        new_next.len() == old_next.len() ==> old_next.len() > 0 && old_next.last().weight == st.weight,
        forall|k: int| 0 <= k < new_next.len() - 1 ==> #[trigger] new_next[k] == old_next[k],
    ensures
        covered(new_next, w, p),
{
    let k = choose|k: int| 0 <= k < old_next.len() && (#[trigger] old_next[k]).weight <= w && old_next[k].profit >= p;
    if k < new_next.len() - 1 {
        assert(new_next[k] == old_next[k]);
    } else {
        assert(new_next[new_next.len() - 1] == st);
    }
}

/// The next frontier gets `st` appended, or its last entry replaced by `st`
/// when the weights are equal; the frontier stays strictly increasing.
fn push_or_replace(next_states: &mut Vec<MinKnapState>, st: MinKnapState)
    requires
        strictly_sorted(old(next_states)@),
        old(next_states)@.len() > 0 ==> old(next_states)@.last().weight <= st.weight
            && old(next_states)@.last().profit < st.profit,
    ensures
        final(next_states)@ == old(next_states)@.push(st) || (old(next_states)@.len() > 0
            && final(next_states)@ == old(next_states)@.update(
            old(next_states)@.len() - 1,
            st,
        )),
        strictly_sorted(final(next_states)@),
        final(next_states)@.len() > 0,
        final(next_states)@.last() == st,
        final(next_states)@.len() == old(next_states)@.len() ==> old(next_states)@.len() > 0
            && old(next_states)@.last().weight == st.weight,
        forall|k: int|
            0 <= k < final(next_states)@.len() - 1 ==> #[trigger] final(next_states)@[k] == old(
                next_states,
            )@[k],
{
    let len = next_states.len();
    if len > 0 && next_states[len - 1].weight == st.weight {
        next_states.set(len - 1, st);
    } else {
        next_states.push(st);
    }
}

fn swap_state_buffers(current_states: &mut Vec<MinKnapState>, next_states: &mut Vec<MinKnapState>)
    ensures
        final(current_states)@ == old(next_states)@,
        final(next_states)@.len() == 0,
{
    current_states.clear();
    std::mem::swap(current_states, next_states);
}

struct MinKnapInstance<'a> {
    /// The weight of the best solution found so far.
    best_sol_weight: u128,
    /// Bit `i` set when item `i` is in the solution being built.
    decision_vec: DecisionVec,
    /// Positions of the working items, most efficient first.
    efficiency_ordering: Vec<usize>,
    /// The profit of the zero-weight items, which are always taken.
    base_profit: u64,
    break_solution: BreakSolution,
    problem_instance: &'a KnapsackInput,
    /// The lower wall of the core: positions below it are taken.
    s: usize,
    /// One past the upper wall of the core: positions from it on are left out.
    t_next: usize,
    /// The best feasible profit found so far.
    profit_lower_bound: u128,
    /// States heavier than this cannot become feasible again.
    max_allowed_weight: u128,
    /// The core positions in the order in which they were decided.
    traversal_order: Vec<usize>,
    /// Where in `traversal_order` the best solution took its last decision.
    best_sol_item: usize,
    /// The fragment of the best solution's latest decisions.
    best_sol_fragment: SolutionFragment,
    /// Fragments of earlier decisions, shared between states.
    solution_tree: SolutionTree,
    /// For each stored fragment, the decision history that it ends.
    history: Ghost<Seq<Seq<bool>>>,
    /// Every decision of the best solution found so far.
    best_decisions: Ghost<Seq<bool>>,
}

/// The stored fragment `k` holds the last 64 decisions of its history, and
/// links to the stored fragment that ends the decisions before them.
spec fn stored_ok(history: Seq<Seq<bool>>, tree: Seq<SolutionFragment>, k: int) -> bool {
    let h = history[k];
    let f = tree[k];
    &&& h.len() >= 64
    &&& h.len() % 64 == 0
    &&& forall|i: int| 0 <= i < 64 ==> #[trigger] decision_at(f.value, i as u64) == h[h.len() - 1 - i]
    &&& match f.previous_idx {
        Some(p) => p < k && history[p as int] == h.take(h.len() - 64),
        None => h.len() == 64,
    }
}

/// How many decisions a live fragment holds after `len` decisions: all those
/// since the last flush (`flushed`), or up to 64 just before a flush.
spec fn frag_count(len: int, flushed: bool) -> int {
    if flushed {
        len % 64
    } else {
        (len - 1) % 64 + 1
    }
}

/// A fragment's link leads to an earlier index of the store.
spec fn link_below(f: SolutionFragment, bound: int) -> bool {
    f.previous_idx matches Some(p) ==> p < bound
}

impl<'a> MinKnapInstance<'a> {
    spec fn items(&self) -> Seq<KnapsackItem> {
        self.problem_instance.items_view()
    }

    spec fn cap(&self) -> int {
        self.problem_instance.capacity_view() as int
    }

    spec fn order(&self) -> Seq<usize> {
        self.efficiency_ordering@
    }

    spec fn b(&self) -> int {
        self.break_solution.break_index as int
    }

    spec fn wb(&self) -> int {
        self.break_solution.total_weight as int
    }

    /// The weight of a state with the given decisions.
    spec fn traced_weight(&self, decs: Seq<bool>, len: int) -> int {
        self.wb() + dev_weight(self.items(), self.order(), self.traversal_order@, self.b(), decs, len)
    }

    /// The profit of a state with the given decisions.
    spec fn traced_profit(&self, decs: Seq<bool>, len: int) -> int {
        self.break_solution.total_profit + dev_profit(
            self.items(),
            self.order(),
            self.traversal_order@,
            self.b(),
            decs,
            len,
        )
    }

    /// `f` holds the latest `frag_count(len, flushed)` decisions of
    /// `decs[..len]`, newest at bit 0, and links to the stored fragment that
    /// ends the decisions before them.
    spec fn encodes(&self, f: SolutionFragment, decs: Seq<bool>, len: int, flushed: bool) -> bool {
        let cnt = frag_count(len, flushed);
        let base = len - cnt;
        &&& forall|i: int| 0 <= i < cnt ==> #[trigger] decision_at(f.value, i as u64) == decs[len - 1 - i]
        &&& match f.previous_idx {
            Some(p) => p < self.solution_tree@.len() && base > 0 && self.history@[p as int]
                == decs.take(base),
            None => base == 0,
        }
    }

    /// The decision vector marks exactly the greedy prefix among the working
    /// items, and their weight is the break weight.
    spec fn break_bits_ok(&self) -> bool {
        &&& forall|x: int|
            0 <= x < self.order().len() ==> bits_of(self.decision_vec)[#[trigger] self.order()[x] as int]
                == (x < self.b())
        &&& bits_weight(self.items(), bits_of(self.decision_vec), self.items().len() as int)
            == self.wb()
        &&& bits_profit(self.items(), bits_of(self.decision_vec), self.items().len() as int)
            == self.base_profit + self.break_solution.total_profit
    }

    /// The traversal log holds each position of the core `[s, t_next)` once.
    spec fn trav_covers(&self, s: int, t_next: int) -> bool {
        &&& trav_ok(self.order(), self.traversal_order@)
        &&& self.traversal_order@.len() == t_next - s
        &&& forall|k: int|
            0 <= k < self.traversal_order@.len() ==> s <= #[trigger] self.traversal_order@[k] < t_next
    }

    spec fn inv(&self) -> bool {
        &&& order_ok(self.items(), self.order(), self.cap())
        &&& self.order().len() <= self.items().len()
        &&& free_items_marked(self.items(), bits_of(self.decision_vec))
        &&& self.b() <= self.order().len()
        &&& self.break_solution.total_weight == order_weight(self.items(), self.order(), self.b())
        &&& self.break_solution.total_profit == order_profit(self.items(), self.order(), self.b())
        &&& self.break_solution.total_weight <= self.cap()
        &&& self.s <= self.b() <= self.t_next <= self.order().len()
        &&& self.max_allowed_weight == self.cap() + self.break_solution.total_weight
        &&& forall|k: int|
            0 <= k < self.traversal_order@.len() ==> self.traversal_order@[k] < self.order().len()
        &&& self.best_sol_item < self.traversal_order@.len() || self.best_sol_item == 0
        &&& forall|k: int|
            0 <= k < self.solution_tree@.len() ==> link_below(self.solution_tree@[k], k)
        &&& link_below(self.best_sol_fragment, self.solution_tree@.len() as int)
        &&& self.order().no_duplicates()
        &&& self.history@.len() == self.solution_tree@.len()
        &&& forall|k: int|
            0 <= k < self.solution_tree@.len() ==> #[trigger] stored_ok(
                self.history@,
                self.solution_tree@,
                k,
            )
        &&& self.best_decisions@.len() == self.best_sol_item + 1
        &&& self.encodes(
            self.best_sol_fragment,
            self.best_decisions@,
            self.best_sol_item + 1,
            false,
        )
        &&& self.best_sol_weight == self.traced_weight(self.best_decisions@, self.best_sol_item + 1)
        &&& self.best_sol_weight <= self.cap()
        &&& self.profit_lower_bound == self.traced_profit(self.best_decisions@, self.best_sol_item + 1)
        &&& forall|k: int|
            0 <= k < self.best_decisions@.len() && self.best_decisions@[k] ==> k
                < self.traversal_order@.len()
    }

    /// What stays fixed while the core is explored.
    spec fn same_frame(&self, other: &Self) -> bool {
        &&& self.problem_instance == other.problem_instance
        &&& self.efficiency_ordering@ == other.efficiency_ordering@
        &&& self.break_solution == other.break_solution
        &&& self.s == other.s
        &&& self.t_next == other.t_next
        &&& self.max_allowed_weight == other.max_allowed_weight
        &&& bits_of(self.decision_vec) == bits_of(other.decision_vec)
        &&& self.base_profit == other.base_profit
    }

    /// A state with every position below `s` taken, none from `t_next` on,
    /// and a fragment linked into the store.
    spec fn state_ok(&self, st: MinKnapState, s: int, t_next: int, len: int, flushed: bool) -> bool {
        &&& order_weight(self.items(), self.order(), s) <= st.weight <= self.max_allowed_weight
        &&& order_profit(self.items(), self.order(), s) <= st.profit <= order_profit(
            self.items(),
            self.order(),
            t_next,
        )
        &&& link_below(st.sol_fragment, self.solution_tree@.len() as int)
        &&& st.decisions@.len() == len
        &&& st.weight == self.traced_weight(st.decisions@, len)
        &&& st.profit == self.traced_profit(st.decisions@, len)
        &&& forall|k: int| 0 <= k < len && st.decisions@[k] ==> k < self.traversal_order@.len()
        &&& self.encodes(st.sol_fragment, st.decisions@, len, flushed)
    }

    spec fn states_ok(
        &self,
        sts: Seq<MinKnapState>,
        s: int,
        t_next: int,
        len: int,
        flushed: bool,
    ) -> bool {
        forall|k: int|
            0 <= k < sts.len() ==> self.state_ok(#[trigger] sts[k], s, t_next, len, flushed)
    }

    fn new(input: &'a KnapsackInput) -> (r: Self)
        requires
            input.total_profit() <= u64::MAX,
            input.items_view().len() <= usize::MAX >> 3usize,
        ensures
            r.inv(),
            r.problem_instance == input,
            r.s == r.b(),
            r.t_next == r.b(),
            r.traversal_order@.len() == 0,
            r.solution_tree@.len() == 0,
            r.best_sol_fragment.previous_idx is None,
            forall|k: int| 0 <= k < r.b() ==> bits_of(r.decision_vec)[#[trigger] r.order()[k] as int],
            forall|j: int|
                0 <= j < input.items_view().len() && 0 < (#[trigger] input.items_view()[j]).weight
                    <= input.capacity_view() ==> r.order().contains(j as usize),
            prefix_weight(input.items_view(), input.items_view().len() as int)
                <= input.capacity_view() ==> r.b() == r.order().len(),
            r.break_bits_ok(),
            r.profit_lower_bound == r.break_solution.total_profit,
            sorted_by_efficiency(r.items(), r.order()),
            r.base_profit == bits_profit(r.items(), zero_bits(r.items()), r.items().len() as int),
    {
        let (efficiency_ordering, mut decision_vec, base_profit) = prepare_items(input);
        proof {
            lemma_bits_same(
                input.items_view(),
                bits_of(decision_vec),
                zero_bits(input.items_view()),
                input.items_view().len() as int,
            );
        }
        assert(((0u64 >> 0u64) & 1u64 == 1u64) == false) by (bit_vector);
        let break_solution = BreakSolution::new(input, &efficiency_ordering, &mut decision_vec);
        let max_allowed_weight = input.capacity() as u128 + break_solution.total_weight;
        let b = break_solution.break_index;
        let r = MinKnapInstance {
            best_sol_weight: break_solution.total_weight,
            decision_vec,
            efficiency_ordering,
            base_profit,
            break_solution,
            problem_instance: input,
            s: b,
            t_next: b,
            profit_lower_bound: break_solution.total_profit,
            max_allowed_weight,
            traversal_order: Vec::new(),
            best_sol_item: 0,
            best_sol_fragment: SolutionFragment::default(),
            solution_tree: SolutionTree::new(),
            history: Ghost(Seq::empty()),
            best_decisions: Ghost(Seq::empty().push(false)),
        };
        proof {
            assert(r.best_decisions@[0] == false);
            assert(frag_count(1, false) == 1);
            assert(decision_at(r.best_sol_fragment.value, 0u64) == false);
            assert(r.encodes(r.best_sol_fragment, r.best_decisions@, 1, false));
            assert(dev_weight(r.items(), r.order(), r.traversal_order@, r.b(), r.best_decisions@, 0) == 0);
            assert(r.best_sol_weight == r.traced_weight(r.best_decisions@, 1));
            assert(dev_profit(r.items(), r.order(), r.traversal_order@, r.b(), r.best_decisions@, 0) == 0);
            assert(r.profit_lower_bound == r.traced_profit(r.best_decisions@, 1));
        }
        r
    }

    /// The item at a position of the efficiency order.
    fn get_item(&self, efficiency_order_idx: usize) -> (r: KnapsackItem)
        requires
            self.inv(),
            efficiency_order_idx < self.order().len(),
        ensures
            r == self.items()[self.order()[efficiency_order_idx as int] as int],
    {
        self.problem_instance.items()[self.efficiency_ordering[efficiency_order_idx]]
    }

    /// An upper bound on the profit that the state can still reach with the
    /// core `[s, t_next)`: the slack (or the excess) is filled (or emptied)
    /// linearly at the efficiency of the next item outside the core.
    fn get_profit_upper_bound(&self, current_state: &MinKnapState, s: usize, t_next: usize) -> (r:
        u128)
        requires
            self.inv(),
            s <= self.b(),
            t_next <= self.order().len(),
            current_state.weight <= self.max_allowed_weight,
        ensures
            current_state.weight <= self.cap() && t_next < self.order().len() ==> {
                let it = self.items()[self.order()[t_next as int] as int];
                r == current_state.profit.saturating_add(
                    (((self.cap() - current_state.weight) * it.profit) / (it.weight as int)) as u128,
                )
            },
            current_state.weight > self.cap() && s > 0 ==> {
                let it = self.items()[self.order()[s - 1] as int];
                r == current_state.profit.saturating_sub(
                    (((current_state.weight - self.cap()) * it.profit) / (it.weight as int)) as u128,
                )
            },
            (current_state.weight <= self.cap() && t_next >= self.order().len()) || (
            current_state.weight > self.cap() && s == 0) ==> r == current_state.profit,
            r == upper_bound_of(
                self.items(),
                self.order(),
                self.cap(),
                s as int,
                t_next as int,
                current_state.weight as int,
                current_state.profit as int,
            ),
    {
        let cap = self.problem_instance.capacity() as u128;
        if current_state.weight <= cap {
            if t_next >= self.efficiency_ordering.len() {
                current_state.profit
            } else {
                let next_item = self.get_item(t_next);
                let weight_diff = cap - current_state.weight;
                proof {
                    lemma_mul_u64(weight_diff as u64, next_item.profit);
                }
                current_state.profit.saturating_add(
                    (weight_diff * next_item.profit as u128) / next_item.weight as u128,
                )
            }
        } else {
            if s == 0 {
                current_state.profit
            } else {
                let prev_item = self.get_item(s - 1);
                let weight_diff = current_state.weight - cap;
                proof {
                    lemma_mul_u64(weight_diff as u64, prev_item.profit);
                }
                current_state.profit.saturating_sub(
                    (weight_diff * prev_item.profit as u128) / prev_item.weight as u128,
                )
            }
        }
    }

    /// Records a newly transformed state as the best so far when it is
    /// feasible and more profitable than the best so far.
    fn try_update_lower_bound(&mut self, state: &MinKnapState)
        requires
            old(self).inv(),
            old(self).traversal_order@.len() > 0,
            link_below(state.sol_fragment, old(self).solution_tree@.len() as int),
            state.decisions@.len() == old(self).traversal_order@.len(),
            state.weight == old(self).traced_weight(
                state.decisions@,
                old(self).traversal_order@.len() as int,
            ),
            state.profit == old(self).traced_profit(
                state.decisions@,
                old(self).traversal_order@.len() as int,
            ),
            old(self).encodes(
                state.sol_fragment,
                state.decisions@,
                old(self).traversal_order@.len() as int,
                false,
            ),
        ensures
            final(self).history@ == old(self).history@,
            final(self).inv(),
            final(self).same_frame(old(self)),
            final(self).traversal_order@ == old(self).traversal_order@,
            final(self).solution_tree@ == old(self).solution_tree@,
            final(self).profit_lower_bound >= old(self).profit_lower_bound,
            state.weight <= old(self).cap() && state.profit > old(self).profit_lower_bound ==> {
                &&& final(self).profit_lower_bound == state.profit
                &&& final(self).best_sol_weight == state.weight
                &&& final(self).best_sol_item == old(self).traversal_order@.len() - 1
                &&& final(self).best_sol_fragment == state.sol_fragment
                &&& final(self).best_decisions@ == state.decisions@
            },
            !(state.weight <= old(self).cap() && state.profit > old(self).profit_lower_bound)
                ==> *final(self) == *old(self),
    {
        if state.weight <= self.problem_instance.capacity() as u128 && state.profit
            > self.profit_lower_bound {
            self.profit_lower_bound = state.profit;
            self.best_sol_weight = state.weight;
            self.best_sol_item = self.traversal_order.len() - 1;
            self.best_sol_fragment = state.sol_fragment;
            self.best_decisions = Ghost(state.decisions@);
        }
    }

    fn add_to_traversal_order(&mut self, efficiency_order_idx: usize)
        requires
            old(self).inv(),
            efficiency_order_idx < old(self).order().len(),
        ensures
            final(self).inv(),
            final(self).same_frame(old(self)),
            final(self).traversal_order@ == old(self).traversal_order@.push(efficiency_order_idx),
            final(self).solution_tree@ == old(self).solution_tree@,
            final(self).history@ == old(self).history@,
            final(self).profit_lower_bound == old(self).profit_lower_bound,
    {
        let ghost before = self.traversal_order@;
        self.traversal_order.push(efficiency_order_idx);
        proof {
            lemma_dev_same(
                self.items(),
                self.order(),
                self.traversal_order@,
                before,
                self.b(),
                self.best_decisions@,
                self.best_decisions@,
                self.best_sol_item + 1,
            );
        }
    }

    /// One more decision `d` on a state whose fragment was flushed.
    proof fn lemma_encode_step(
        &self,
        f: SolutionFragment,
        g: SolutionFragment,
        decs: Seq<bool>,
        d: bool,
        len: int,
    )
        requires
            self.encodes(f, decs, len, true),
            decs.len() == len,
            len >= 0,
            decision_at(g.value, 0) == d,
            forall|k: u64|
                1 <= k < 64 ==> decision_at(g.value, k) == decision_at(f.value, (k - 1) as u64),
            g.previous_idx == f.previous_idx,
        ensures
            self.encodes(g, decs.push(d), len + 1, false),
    {
        let nd = decs.push(d);
        let cnt = len % 64;
        assert(frag_count(len + 1, false) == cnt + 1);
        assert forall|i: int| 0 <= i < cnt + 1 implies #[trigger] decision_at(g.value, i as u64)
            == nd[len - i] by {
            if i > 0 {
                assert(decision_at(g.value, i as u64) == decision_at(f.value, (i - 1) as u64));
                assert(decision_at(f.value, (i - 1) as u64) == decs[len - 1 - (i - 1)]);
            }
        }
        assert(nd.take(len - cnt) =~= decs.take(len - cnt));
    }

    /// Decides the item at `t_next - 1`, just added to the core on the right:
    /// every state either takes it or leaves it. The two candidate streams are
    /// merged by increasing weight; dominated, too heavy and hopeless
    /// candidates are dropped, and equal weights keep the later candidate.
    #[verifier::rlimit(100)]
    fn explore_item_t(
        &mut self,
        current_states: &Vec<MinKnapState>,
        next_states: &mut Vec<MinKnapState>,
    )
        requires
            old(self).inv(),
            old(self).b() < old(self).t_next,
            old(self).states_ok(
                current_states@,
                old(self).s as int,
                old(self).t_next - 1,
                old(self).traversal_order@.len() as int,
                true,
            ),
            old(self).trav_covers(old(self).s as int, old(self).t_next - 1),
            old(next_states)@.len() == 0,
            strictly_sorted(current_states@),
            feasible_below(current_states@, old(self).cap(), old(self).profit_lower_bound as int),
        ensures
            strictly_sorted(final(next_states)@),
            feasible_below(final(next_states)@, old(self).cap(), final(self).profit_lower_bound as int),
            final(self).profit_lower_bound >= old(self).profit_lower_bound,
            forall|j: int|
                0 <= j < current_states@.len() ==> ((#[trigger] current_states@[j]).weight
                    <= old(self).max_allowed_weight && upper_bound_of(old(self).items(), old(self).order(), old(self).cap(), old(self).s as int, old(self).t_next as int, current_states@[j].weight as int, current_states@[j].profit as int) > final(self).profit_lower_bound
                    ==> covered(final(next_states)@, current_states@[j].weight as int, current_states@[j].profit as int)),
            forall|j: int|
                0 <= j < current_states@.len() ==> ((#[trigger] current_states@[j]).weight + old(self).items()[old(self).order()[old(self).t_next - 1] as int].weight
                    <= old(self).max_allowed_weight && upper_bound_of(old(self).items(), old(self).order(), old(self).cap(), old(self).s as int, old(self).t_next as int, current_states@[j].weight + old(self).items()[old(self).order()[old(self).t_next - 1] as int].weight, current_states@[j].profit + old(self).items()[old(self).order()[old(self).t_next - 1] as int].profit) > final(self).profit_lower_bound
                    ==> covered(final(next_states)@, current_states@[j].weight + old(self).items()[old(self).order()[old(self).t_next - 1] as int].weight, current_states@[j].profit + old(self).items()[old(self).order()[old(self).t_next - 1] as int].profit)),
            all_derived(
                final(next_states)@,
                current_states@,
                old(self).items()[old(self).order()[old(self).t_next - 1] as int].weight as int,
                old(self).items()[old(self).order()[old(self).t_next - 1] as int].profit as int,
            ),
            final(self).inv(),
            final(self).same_frame(old(self)),
            final(self).traversal_order@ == old(self).traversal_order@.push(
                (old(self).t_next - 1) as usize,
            ),
            final(self).solution_tree@ == old(self).solution_tree@,
            final(self).history@ == old(self).history@,
            final(self).states_ok(
                final(next_states)@,
                final(self).s as int,
                final(self).t_next as int,
                final(self).traversal_order@.len() as int,
                false,
            ),
            final(self).trav_covers(final(self).s as int, final(self).t_next as int),
    {
        let t: usize = self.t_next - 1;
        let ghost before = self.traversal_order@;
        let ghost len = before.len() as int;
        proof {
            assert(!before.contains(t)) by {
                if before.contains(t) {
                    let k = choose|k: int| 0 <= k < before.len() && before[k] == t;
                    assert(self.traversal_order@[k] < self.t_next - 1);
                }
            }
            lemma_no_dup_push(before, t);
        }
        self.add_to_traversal_order(t);
        proof {
            assert forall|j: int| 0 <= j < current_states@.len() implies self.state_ok(
                #[trigger] current_states@[j],
                self.s as int,
                t as int,
                len,
                true,
            ) by {
                let st = current_states@[j];
                assert(old(self).state_ok(st, self.s as int, t as int, len, true));
                lemma_dev_same(
                    self.items(),
                    self.order(),
                    self.traversal_order@,
                    before,
                    self.b(),
                    st.decisions@,
                    st.decisions@,
                    len,
                );
            }
        }
        let item = self.get_item(t);
        let w: u128 = item.weight as u128;
        let p: u128 = item.profit as u128;
        let state_count = current_states.len();
        let ghost s = self.s as int;
        proof {
            lemma_order_monotone(self.items(), self.order(), t as int, t as int + 1);
            lemma_order_profit_fits(self.items(), self.order(), t as int + 1);
        }
        let mut insert_index: usize = 0;
        let mut no_insert_index: usize = 0;
        proof {
            assert(next_states@ =~= Seq::<MinKnapState>::empty());
            lemma_covers_start(current_states@, w as int, p as int, self.profit_lower_bound as int, self.max_allowed_weight as int, self.items(), self.order(), self.cap(), self.s as int, self.t_next as int);
        }
        while insert_index < state_count || no_insert_index < state_count
            invariant
                self.inv(),
                self.same_frame(old(self)),
                self.traversal_order@ == old(self).traversal_order@.push(t),
                self.solution_tree@ == old(self).solution_tree@,
                t + 1 == self.t_next,
                s == self.s,
                item == self.items()[self.order()[t as int] as int],
                w == item.weight,
                p == item.profit,
                state_count == current_states@.len(),
                insert_index <= state_count,
                no_insert_index <= state_count,
                strictly_sorted(current_states@),
                strictly_sorted(next_states@),
                feasible_below(current_states@, self.cap(), self.profit_lower_bound as int),
                feasible_below(next_states@, self.cap(), self.profit_lower_bound as int),
                self.profit_lower_bound >= old(self).profit_lower_bound,
                covers_all(next_states@, current_states@, no_insert_index as int, insert_index as int, w as int, p as int, self.profit_lower_bound as int, self.max_allowed_weight as int, self.items(), self.order(), self.cap(), self.s as int, self.t_next as int),
                all_derived(next_states@, current_states@, w as int, p as int),
                next_states@.len() > 0 ==> forall|j: int|
                    no_insert_index <= j < state_count ==> next_states@.last().weight
                        <= (#[trigger] current_states@[j]).weight,
                next_states@.len() > 0 ==> forall|i: int|
                    insert_index <= i < state_count ==> next_states@.last().weight
                        <= (#[trigger] current_states@[i]).weight + w,
                self.states_ok(current_states@, s, t as int, len, true),
                self.states_ok(next_states@, s, t as int + 1, len + 1, false),
                self.history@ == old(self).history@,
                self.traversal_order@.len() == len + 1,
                self.traversal_order@[len] == t,
                t >= self.b(),
                order_profit(self.items(), self.order(), t as int + 1) == order_profit(
                    self.items(),
                    self.order(),
                    t as int,
                ) + p,
                order_profit(self.items(), self.order(), t as int + 1)
                    <= 0xffff_ffff_ffff_fffe_0000_0000_0000_0001int,
                order_profit(self.items(), self.order(), t as int) <= order_profit(
                    self.items(),
                    self.order(),
                    t as int + 1,
                ),
            decreases (state_count - insert_index) + (state_count - no_insert_index),
        {
            if insert_index < state_count && (no_insert_index >= state_count
                || current_states[no_insert_index].weight > current_states[insert_index].weight
                + w) {
                let base = current_states[insert_index];
                let ghost i0 = insert_index as int;
                let ghost k0 = no_insert_index as int;
                assert(self.state_ok(current_states@[insert_index as int], s, t as int, len, true));
                let mut new_state = MinKnapState {
                    weight: base.weight + w,
                    profit: base.profit + p,
                    sol_fragment: base.sol_fragment,
                    decisions: Ghost(base.decisions@.push(true)),
                };
                proof {
                    lemma_dev_same(
                        self.items(),
                        self.order(),
                        self.traversal_order@,
                        self.traversal_order@,
                        self.b(),
                        new_state.decisions@,
                        base.decisions@,
                        len,
                    );
                }
                insert_index += 1;
                if new_state.weight > self.max_allowed_weight {
                    proof {
                        lemma_covers_step(next_states@, next_states@, current_states@, k0, i0, k0, i0 + 1, w as int, p as int, self.profit_lower_bound as int, self.profit_lower_bound as int, self.max_allowed_weight as int, self.items(), self.order(), self.cap(), self.s as int, self.t_next as int);
                    }
                    continue;
                }
                let last = next_states.len();
                if last > 0 && next_states[last - 1].profit >= new_state.profit {
                    proof {
                        assert(next_states@.last().weight <= (#[trigger] current_states@[i0]).weight + w);
                        assert(next_states@[last as int - 1].weight <= new_state.weight);
                        assert(covered(next_states@, new_state.weight as int, new_state.profit as int));
                        lemma_covers_step(next_states@, next_states@, current_states@, k0, i0, k0, i0 + 1, w as int, p as int, self.profit_lower_bound as int, self.profit_lower_bound as int, self.max_allowed_weight as int, self.items(), self.order(), self.cap(), self.s as int, self.t_next as int);
                    }
                    continue;
                }
                if self.get_profit_upper_bound(&new_state, self.s, self.t_next)
                    <= self.profit_lower_bound {
                    proof {
                        lemma_covers_step(next_states@, next_states@, current_states@, k0, i0, k0, i0 + 1, w as int, p as int, self.profit_lower_bound as int, self.profit_lower_bound as int, self.max_allowed_weight as int, self.items(), self.order(), self.cap(), self.s as int, self.t_next as int);
                    }
                    continue;
                }
                let ghost f = new_state.sol_fragment;
                new_state.sol_fragment.add_decision(true);
                proof {
                    self.lemma_encode_step(f, new_state.sol_fragment, base.decisions@, true, len);
                }
                let ghost lb0 = self.profit_lower_bound as int;
                self.try_update_lower_bound(&new_state);
                let ghost before_next = next_states@;
                push_or_replace(next_states, new_state);
                proof {
                    assert forall|k: int| 0 <= k < next_states@.len() && (#[trigger] next_states@[k]).weight
                        <= self.cap() implies next_states@[k].profit <= self.profit_lower_bound by {
                        if k < next_states@.len() - 1 {
                            assert(next_states@[k] == before_next[k]);
                        }
                    }
                    assert forall|w2: int, p2: int| covered(before_next, w2, p2) implies covered(next_states@, w2, p2) by {
                        lemma_covered_after_push(before_next, next_states@, new_state, w2, p2);
                    }
                    assert(next_states@[next_states@.len() - 1] == new_state);
                    assert(covered(next_states@, new_state.weight as int, new_state.profit as int));
                    lemma_covers_step(before_next, next_states@, current_states@, k0, i0, k0, i0 + 1, w as int, p as int, lb0, self.profit_lower_bound as int, self.max_allowed_weight as int, self.items(), self.order(), self.cap(), self.s as int, self.t_next as int);
                    assert(step_of(new_state, current_states@[i0], w as int, p as int));
                    assert forall|k: int| 0 <= k < next_states@.len() implies exists|j: int|
                        0 <= j < current_states@.len() && step_of(
                            #[trigger] next_states@[k],
                            current_states@[j],
                            w as int,
                            p as int,
                        ) by {
                        if k < next_states@.len() - 1 {
                            assert(next_states@[k] == before_next[k]);
                        }
                    }
                    assert forall|j: int| no_insert_index <= j < state_count implies next_states@.last().weight
                        <= (#[trigger] current_states@[j]).weight by {
                        if j > k0 {
                            assert(current_states@[k0].weight < current_states@[j].weight);
                        }
                    }
                    assert forall|i: int| insert_index <= i < state_count implies next_states@.last().weight
                        <= (#[trigger] current_states@[i]).weight + w by {
                        assert(current_states@[i0].weight < current_states@[i].weight);
                    }
                }
            } else {
                let mut current_state = current_states[no_insert_index];
                let ghost j0 = no_insert_index as int;
                let ghost i1 = insert_index as int;
                assert(self.state_ok(current_states@[no_insert_index as int], s, t as int, len, true));
                let ghost kept = current_state.decisions@;
                current_state.decisions = Ghost(kept.push(false));
                proof {
                    lemma_dev_same(
                        self.items(),
                        self.order(),
                        self.traversal_order@,
                        self.traversal_order@,
                        self.b(),
                        current_state.decisions@,
                        kept,
                        len,
                    );
                }
                no_insert_index += 1;
                let last = next_states.len();
                if last > 0 && next_states[last - 1].profit >= current_state.profit {
                    proof {
                        assert(next_states@.last().weight <= (#[trigger] current_states@[j0]).weight);
                        assert(covered(next_states@, current_state.weight as int, current_state.profit as int));
                        lemma_covers_step(next_states@, next_states@, current_states@, j0, i1, j0 + 1, i1, w as int, p as int, self.profit_lower_bound as int, self.profit_lower_bound as int, self.max_allowed_weight as int, self.items(), self.order(), self.cap(), self.s as int, self.t_next as int);
                    }
                    continue;
                }
                if self.get_profit_upper_bound(&current_state, self.s, self.t_next)
                    <= self.profit_lower_bound {
                    proof {
                        lemma_covers_step(next_states@, next_states@, current_states@, j0, i1, j0 + 1, i1, w as int, p as int, self.profit_lower_bound as int, self.profit_lower_bound as int, self.max_allowed_weight as int, self.items(), self.order(), self.cap(), self.s as int, self.t_next as int);
                    }
                    continue;
                }
                let ghost f = current_state.sol_fragment;
                current_state.sol_fragment.add_decision(false);
                proof {
                    self.lemma_encode_step(f, current_state.sol_fragment, kept, false, len);
                }
                let ghost before_next = next_states@;
                push_or_replace(next_states, current_state);
                proof {
                    assert forall|k: int| 0 <= k < next_states@.len() && (#[trigger] next_states@[k]).weight
                        <= self.cap() implies next_states@[k].profit <= self.profit_lower_bound by {
                        if k < next_states@.len() - 1 {
                            assert(next_states@[k] == before_next[k]);
                        }
                    }
                    assert forall|w2: int, p2: int| covered(before_next, w2, p2) implies covered(next_states@, w2, p2) by {
                        lemma_covered_after_push(before_next, next_states@, current_state, w2, p2);
                    }
                    assert(next_states@[next_states@.len() - 1] == current_state);
                    assert(covered(next_states@, current_state.weight as int, current_state.profit as int));
                    lemma_covers_step(before_next, next_states@, current_states@, j0, i1, j0 + 1, i1, w as int, p as int, self.profit_lower_bound as int, self.profit_lower_bound as int, self.max_allowed_weight as int, self.items(), self.order(), self.cap(), self.s as int, self.t_next as int);
                    assert(step_of(current_state, current_states@[j0], w as int, p as int));
                    assert forall|k: int| 0 <= k < next_states@.len() implies exists|j: int|
                        0 <= j < current_states@.len() && step_of(
                            #[trigger] next_states@[k],
                            current_states@[j],
                            w as int,
                            p as int,
                        ) by {
                        if k < next_states@.len() - 1 {
                            assert(next_states@[k] == before_next[k]);
                        }
                    }
                    assert forall|j: int| no_insert_index <= j < state_count implies next_states@.last().weight
                        <= (#[trigger] current_states@[j]).weight by {
                        assert(current_states@[j0].weight < current_states@[j].weight);
                    }
                    assert forall|i: int| insert_index <= i < state_count implies next_states@.last().weight
                        <= (#[trigger] current_states@[i]).weight + w by {
                        if i > i1 {
                            assert(current_states@[i1].weight < current_states@[i].weight);
                        }
                    }
                }
            }
        }
        proof {
            reveal(covers_all);
        }
    }

    /// Decides the item at `s`, just added to the core on the left: every
    /// state either gives it up or keeps it, merged as in `explore_item_t`.
    #[verifier::rlimit(100)]
    fn explore_item_s(
        &mut self,
        current_states: &Vec<MinKnapState>,
        next_states: &mut Vec<MinKnapState>,
    )
        requires
            old(self).inv(),
            old(self).s < old(self).b(),
            old(self).states_ok(
                current_states@,
                old(self).s + 1,
                old(self).t_next as int,
                old(self).traversal_order@.len() as int,
                true,
            ),
            old(self).trav_covers(old(self).s + 1, old(self).t_next as int),
            old(next_states)@.len() == 0,
            strictly_sorted(current_states@),
            feasible_below(current_states@, old(self).cap(), old(self).profit_lower_bound as int),
        ensures
            strictly_sorted(final(next_states)@),
            feasible_below(final(next_states)@, old(self).cap(), final(self).profit_lower_bound as int),
            final(self).profit_lower_bound >= old(self).profit_lower_bound,
            forall|j: int|
                0 <= j < current_states@.len() ==> ((#[trigger] current_states@[j]).weight
                    <= old(self).max_allowed_weight && upper_bound_of(old(self).items(), old(self).order(), old(self).cap(), old(self).s as int, old(self).t_next as int, current_states@[j].weight as int, current_states@[j].profit as int) > final(self).profit_lower_bound
                    ==> covered(final(next_states)@, current_states@[j].weight as int, current_states@[j].profit as int)),
            forall|j: int|
                0 <= j < current_states@.len() ==> ((#[trigger] current_states@[j]).weight - old(self).items()[old(self).order()[old(self).s as int] as int].weight
                    <= old(self).max_allowed_weight && upper_bound_of(old(self).items(), old(self).order(), old(self).cap(), old(self).s as int, old(self).t_next as int, current_states@[j].weight - old(self).items()[old(self).order()[old(self).s as int] as int].weight, current_states@[j].profit - old(self).items()[old(self).order()[old(self).s as int] as int].profit) > final(self).profit_lower_bound
                    ==> covered(final(next_states)@, current_states@[j].weight - old(self).items()[old(self).order()[old(self).s as int] as int].weight, current_states@[j].profit - old(self).items()[old(self).order()[old(self).s as int] as int].profit)),
            all_derived(
                final(next_states)@,
                current_states@,
                -(old(self).items()[old(self).order()[old(self).s as int] as int].weight as int),
                -(old(self).items()[old(self).order()[old(self).s as int] as int].profit as int),
            ),
            final(self).inv(),
            final(self).same_frame(old(self)),
            final(self).traversal_order@ == old(self).traversal_order@.push(old(self).s),
            final(self).solution_tree@ == old(self).solution_tree@,
            final(self).history@ == old(self).history@,
            final(self).states_ok(
                final(next_states)@,
                final(self).s as int,
                final(self).t_next as int,
                final(self).traversal_order@.len() as int,
                false,
            ),
            final(self).trav_covers(final(self).s as int, final(self).t_next as int),
    {
        let s: usize = self.s;
        let ghost before = self.traversal_order@;
        let ghost len = before.len() as int;
        proof {
            assert(!before.contains(s)) by {
                if before.contains(s) {
                    let k = choose|k: int| 0 <= k < before.len() && before[k] == s;
                    assert(self.traversal_order@[k] >= self.s + 1);
                }
            }
            lemma_no_dup_push(before, s);
        }
        self.add_to_traversal_order(s);
        proof {
            assert forall|j: int| 0 <= j < current_states@.len() implies self.state_ok(
                #[trigger] current_states@[j],
                s as int + 1,
                self.t_next as int,
                len,
                true,
            ) by {
                let st = current_states@[j];
                assert(old(self).state_ok(st, s as int + 1, self.t_next as int, len, true));
                lemma_dev_same(
                    self.items(),
                    self.order(),
                    self.traversal_order@,
                    before,
                    self.b(),
                    st.decisions@,
                    st.decisions@,
                    len,
                );
            }
        }
        let item = self.get_item(s);
        let w: u128 = item.weight as u128;
        let p: u128 = item.profit as u128;
        let state_count = current_states.len();
        let ghost t_next = self.t_next as int;
        proof {
            lemma_order_monotone(self.items(), self.order(), s as int, s as int + 1);
            lemma_order_monotone(self.items(), self.order(), 0, s as int);
        }
        let mut remove_index: usize = 0;
        let mut no_remove_index: usize = 0;
        proof {
            assert(next_states@ =~= Seq::<MinKnapState>::empty());
            lemma_covers_start(current_states@, -(w as int), -(p as int), self.profit_lower_bound as int, self.max_allowed_weight as int, self.items(), self.order(), self.cap(), self.s as int, self.t_next as int);
        }
        while remove_index < state_count || no_remove_index < state_count
            invariant
                self.inv(),
                self.same_frame(old(self)),
                self.traversal_order@ == old(self).traversal_order@.push(s),
                self.solution_tree@ == old(self).solution_tree@,
                t_next == self.t_next,
                s == self.s,
                item == self.items()[self.order()[s as int] as int],
                w == item.weight,
                p == item.profit,
                state_count == current_states@.len(),
                remove_index <= state_count,
                no_remove_index <= state_count,
                strictly_sorted(current_states@),
                strictly_sorted(next_states@),
                feasible_below(current_states@, self.cap(), self.profit_lower_bound as int),
                feasible_below(next_states@, self.cap(), self.profit_lower_bound as int),
                self.profit_lower_bound >= old(self).profit_lower_bound,
                covers_all(next_states@, current_states@, no_remove_index as int, remove_index as int, -(w as int), -(p as int), self.profit_lower_bound as int, self.max_allowed_weight as int, self.items(), self.order(), self.cap(), self.s as int, self.t_next as int),
                all_derived(next_states@, current_states@, -(w as int), -(p as int)),
                next_states@.len() > 0 ==> forall|j: int|
                    no_remove_index <= j < state_count ==> next_states@.last().weight
                        <= (#[trigger] current_states@[j]).weight,
                next_states@.len() > 0 ==> forall|i: int|
                    remove_index <= i < state_count ==> next_states@.last().weight
                        <= (#[trigger] current_states@[i]).weight - w,
                self.states_ok(current_states@, s as int + 1, t_next, len, true),
                self.states_ok(next_states@, s as int, t_next, len + 1, false),
                self.history@ == old(self).history@,
                self.traversal_order@.len() == len + 1,
                self.traversal_order@[len] == s,
                s < self.b(),
                order_weight(self.items(), self.order(), s as int) >= 0,
                order_profit(self.items(), self.order(), s as int) >= 0,
                order_profit(self.items(), self.order(), s as int + 1) == order_profit(
                    self.items(),
                    self.order(),
                    s as int,
                ) + p,
                order_weight(self.items(), self.order(), s as int + 1) == order_weight(
                    self.items(),
                    self.order(),
                    s as int,
                ) + w,
            decreases (state_count - remove_index) + (state_count - no_remove_index),
        {
            proof {
                if remove_index < state_count {
                    assert(self.state_ok(current_states@[remove_index as int], s as int + 1, t_next, len, true));
                }
            }
            if no_remove_index < state_count && (remove_index >= state_count
                || current_states[no_remove_index].weight <= current_states[remove_index].weight
                - w) {
                let mut current_state = current_states[no_remove_index];
                let ghost j0 = no_remove_index as int;
                let ghost i1 = remove_index as int;
                assert(self.state_ok(current_states@[no_remove_index as int], s as int + 1, t_next, len, true));
                let ghost kept = current_state.decisions@;
                current_state.decisions = Ghost(kept.push(false));
                proof {
                    lemma_dev_same(
                        self.items(),
                        self.order(),
                        self.traversal_order@,
                        self.traversal_order@,
                        self.b(),
                        current_state.decisions@,
                        kept,
                        len,
                    );
                }
                no_remove_index += 1;
                let last = next_states.len();
                if last > 0 && next_states[last - 1].profit >= current_state.profit {
                    proof {
                        assert(next_states@.last().weight <= (#[trigger] current_states@[j0]).weight);
                        assert(covered(next_states@, current_state.weight as int, current_state.profit as int));
                        lemma_covers_step(next_states@, next_states@, current_states@, j0, i1, j0 + 1, i1, -(w as int), -(p as int), self.profit_lower_bound as int, self.profit_lower_bound as int, self.max_allowed_weight as int, self.items(), self.order(), self.cap(), self.s as int, self.t_next as int);
                    }
                    continue;
                }
                if self.get_profit_upper_bound(&current_state, self.s, self.t_next)
                    <= self.profit_lower_bound {
                    proof {
                        lemma_covers_step(next_states@, next_states@, current_states@, j0, i1, j0 + 1, i1, -(w as int), -(p as int), self.profit_lower_bound as int, self.profit_lower_bound as int, self.max_allowed_weight as int, self.items(), self.order(), self.cap(), self.s as int, self.t_next as int);
                    }
                    continue;
                }
                let ghost f = current_state.sol_fragment;
                current_state.sol_fragment.add_decision(false);
                proof {
                    self.lemma_encode_step(f, current_state.sol_fragment, kept, false, len);
                }
                let ghost before_next = next_states@;
                push_or_replace(next_states, current_state);
                proof {
                    assert forall|k: int| 0 <= k < next_states@.len() && (#[trigger] next_states@[k]).weight
                        <= self.cap() implies next_states@[k].profit <= self.profit_lower_bound by {
                        if k < next_states@.len() - 1 {
                            assert(next_states@[k] == before_next[k]);
                        }
                    }
                    assert forall|w2: int, p2: int| covered(before_next, w2, p2) implies covered(next_states@, w2, p2) by {
                        lemma_covered_after_push(before_next, next_states@, current_state, w2, p2);
                    }
                    assert(next_states@[next_states@.len() - 1] == current_state);
                    assert(covered(next_states@, current_state.weight as int, current_state.profit as int));
                    lemma_covers_step(before_next, next_states@, current_states@, j0, i1, j0 + 1, i1, -(w as int), -(p as int), self.profit_lower_bound as int, self.profit_lower_bound as int, self.max_allowed_weight as int, self.items(), self.order(), self.cap(), self.s as int, self.t_next as int);
                    assert(step_of(current_state, current_states@[j0], -(w as int), -(p as int)));
                    assert forall|k: int| 0 <= k < next_states@.len() implies exists|j: int|
                        0 <= j < current_states@.len() && step_of(
                            #[trigger] next_states@[k],
                            current_states@[j],
                            -(w as int),
                            -(p as int),
                        ) by {
                        if k < next_states@.len() - 1 {
                            assert(next_states@[k] == before_next[k]);
                        }
                    }
                    assert forall|j: int| no_remove_index <= j < state_count implies next_states@.last().weight
                        <= (#[trigger] current_states@[j]).weight by {
                        assert(current_states@[j0].weight < current_states@[j].weight);
                    }
                    assert forall|i: int| remove_index <= i < state_count implies next_states@.last().weight
                        <= (#[trigger] current_states@[i]).weight - w by {
                        if i > i1 {
                            assert(current_states@[i1].weight < current_states@[i].weight);
                        }
                    }
                }
            } else {
                let base = current_states[remove_index];
                let ghost i0 = remove_index as int;
                let ghost k0 = no_remove_index as int;
                assert(self.state_ok(current_states@[remove_index as int], s as int + 1, t_next, len, true));
                let mut new_state = MinKnapState {
                    weight: base.weight - w,
                    profit: base.profit - p,
                    sol_fragment: base.sol_fragment,
                    decisions: Ghost(base.decisions@.push(true)),
                };
                proof {
                    lemma_dev_same(
                        self.items(),
                        self.order(),
                        self.traversal_order@,
                        self.traversal_order@,
                        self.b(),
                        new_state.decisions@,
                        base.decisions@,
                        len,
                    );
                }
                remove_index += 1;
                if new_state.weight > self.max_allowed_weight {
                    proof {
                        lemma_covers_step(next_states@, next_states@, current_states@, k0, i0, k0, i0 + 1, -(w as int), -(p as int), self.profit_lower_bound as int, self.profit_lower_bound as int, self.max_allowed_weight as int, self.items(), self.order(), self.cap(), self.s as int, self.t_next as int);
                    }
                    continue;
                }
                let last = next_states.len();
                if last > 0 && next_states[last - 1].profit >= new_state.profit {
                    proof {
                        assert(next_states@.last().weight <= (#[trigger] current_states@[i0]).weight - w);
                        assert(next_states@[last as int - 1].weight <= new_state.weight);
                        assert(covered(next_states@, new_state.weight as int, new_state.profit as int));
                        lemma_covers_step(next_states@, next_states@, current_states@, k0, i0, k0, i0 + 1, -(w as int), -(p as int), self.profit_lower_bound as int, self.profit_lower_bound as int, self.max_allowed_weight as int, self.items(), self.order(), self.cap(), self.s as int, self.t_next as int);
                    }
                    continue;
                }
                if self.get_profit_upper_bound(&new_state, self.s, self.t_next)
                    <= self.profit_lower_bound {
                    proof {
                        lemma_covers_step(next_states@, next_states@, current_states@, k0, i0, k0, i0 + 1, -(w as int), -(p as int), self.profit_lower_bound as int, self.profit_lower_bound as int, self.max_allowed_weight as int, self.items(), self.order(), self.cap(), self.s as int, self.t_next as int);
                    }
                    continue;
                }
                let ghost f = new_state.sol_fragment;
                new_state.sol_fragment.add_decision(true);
                proof {
                    self.lemma_encode_step(f, new_state.sol_fragment, base.decisions@, true, len);
                }
                let ghost lb0 = self.profit_lower_bound as int;
                self.try_update_lower_bound(&new_state);
                let ghost before_next = next_states@;
                push_or_replace(next_states, new_state);
                proof {
                    assert forall|k: int| 0 <= k < next_states@.len() && (#[trigger] next_states@[k]).weight
                        <= self.cap() implies next_states@[k].profit <= self.profit_lower_bound by {
                        if k < next_states@.len() - 1 {
                            assert(next_states@[k] == before_next[k]);
                        }
                    }
                    assert forall|w2: int, p2: int| covered(before_next, w2, p2) implies covered(next_states@, w2, p2) by {
                        lemma_covered_after_push(before_next, next_states@, new_state, w2, p2);
                    }
                    assert(next_states@[next_states@.len() - 1] == new_state);
                    assert(covered(next_states@, new_state.weight as int, new_state.profit as int));
                    lemma_covers_step(before_next, next_states@, current_states@, k0, i0, k0, i0 + 1, -(w as int), -(p as int), lb0, self.profit_lower_bound as int, self.max_allowed_weight as int, self.items(), self.order(), self.cap(), self.s as int, self.t_next as int);
                    assert(step_of(new_state, current_states@[i0], -(w as int), -(p as int)));
                    assert forall|k: int| 0 <= k < next_states@.len() implies exists|j: int|
                        0 <= j < current_states@.len() && step_of(
                            #[trigger] next_states@[k],
                            current_states@[j],
                            -(w as int),
                            -(p as int),
                        ) by {
                        if k < next_states@.len() - 1 {
                            assert(next_states@[k] == before_next[k]);
                        }
                    }
                    assert forall|j: int| no_remove_index <= j < state_count implies next_states@.last().weight
                        <= (#[trigger] current_states@[j]).weight by {
                        if j > k0 {
                            assert(current_states@[k0].weight < current_states@[j].weight);
                        }
                    }
                    assert forall|i: int| remove_index <= i < state_count implies next_states@.last().weight
                        <= (#[trigger] current_states@[i]).weight - w by {
                        assert(current_states@[i0].weight < current_states@[i].weight);
                    }
                }
            }
        }
        proof {
            reveal(covers_all);
        }
    }

    /// After every 64 decisions, moves each state's fragment into the store
    /// and starts it afresh, linked to the stored copy.
    fn update_solution_history(&mut self, current_states: &mut Vec<MinKnapState>)
        requires
            old(self).inv(),
            old(self).traversal_order@.len() >= 1,
            old(self).states_ok(
                old(current_states)@,
                old(self).s as int,
                old(self).t_next as int,
                old(self).traversal_order@.len() as int,
                false,
            ),
        ensures
            final(self).inv(),
            final(self).same_frame(old(self)),
            final(self).traversal_order@ == old(self).traversal_order@,
            final(self).states_ok(
                final(current_states)@,
                final(self).s as int,
                final(self).t_next as int,
                final(self).traversal_order@.len() as int,
                true,
            ),
            final(current_states)@.len() == old(current_states)@.len(),
            strictly_sorted(old(current_states)@) ==> strictly_sorted(final(current_states)@),
            feasible_below(old(current_states)@, old(self).cap(), old(self).profit_lower_bound as int)
                ==> feasible_below(final(current_states)@, final(self).cap(), final(self).profit_lower_bound as int),
            final(self).profit_lower_bound == old(self).profit_lower_bound,
            forall|j: int|
                0 <= j < old(current_states)@.len() ==> {
                    let a = #[trigger] final(current_states)@[j];
                    let o = old(current_states)@[j];
                    a.weight == o.weight && a.profit == o.profit && a.decisions == o.decisions
                },
            old(self).traversal_order@.len() % 64 != 0 ==> final(self).solution_tree@ == old(self).solution_tree@
                && final(current_states)@ == old(current_states)@,
            old(self).traversal_order@.len() % 64 == 0 ==> {
                &&& final(self).solution_tree@ == old(self).solution_tree@ + old(current_states)@.map_values(|st: MinKnapState| st.sol_fragment)
                &&& forall|j: int|
                    0 <= j < old(current_states)@.len() ==> (#[trigger] final(current_states)@[j]).sol_fragment == SolutionFragment {
                        value: 0,
                        previous_idx: Some((old(self).solution_tree@.len() + j) as usize),
                    }
            },
    {
        let ghost len = self.traversal_order@.len() as int;
        let ghost tree0 = self.solution_tree@;
        let ghost states0 = current_states@;
        proof {
            lemma_mod64(len);
        }
        if self.traversal_order.len() % 64 != 0 {
            assert forall|j: int| 0 <= j < current_states@.len() implies self.state_ok(
                #[trigger] current_states@[j],
                self.s as int,
                self.t_next as int,
                len,
                true,
            ) by {
                assert(self.state_ok(current_states@[j], self.s as int, self.t_next as int, len, false));
            }
            return;
        }
        let mut k: usize = 0;
        while k < current_states.len()
            invariant
                self.inv(),
                self.same_frame(old(self)),
                self.traversal_order@ == old(self).traversal_order@,
                len == self.traversal_order@.len(),
                len % 64 == 0,
                len >= 64,
                (len - 1) % 64 == 63,
                current_states@.len() == old(current_states)@.len(),
                0 <= k <= current_states@.len(),
                tree0 == old(self).solution_tree@,
                states0 == old(current_states)@,
                self.profit_lower_bound == old(self).profit_lower_bound,
                self.solution_tree@ == tree0 + states0.take(k as int).map_values(
                    |st: MinKnapState| st.sol_fragment,
                ),
                forall|j: int|
                    k <= j < current_states@.len() ==> #[trigger] current_states@[j] == states0[j],
                forall|j: int|
                    0 <= j < k ==> {
                        let a = #[trigger] current_states@[j];
                        &&& a.weight == states0[j].weight
                        &&& a.profit == states0[j].profit
                        &&& a.decisions == states0[j].decisions
                        &&& a.sol_fragment == SolutionFragment {
                            value: 0,
                            previous_idx: Some((tree0.len() + j) as usize),
                        }
                    },
                forall|j: int|
                    0 <= j < k ==> self.state_ok(
                        #[trigger] current_states@[j],
                        self.s as int,
                        self.t_next as int,
                        len,
                        true,
                    ),
                forall|j: int|
                    k <= j < current_states@.len() ==> self.state_ok(
                        #[trigger] current_states@[j],
                        self.s as int,
                        self.t_next as int,
                        len,
                        false,
                    ),
            decreases current_states@.len() - k,
        {
            let mut state = current_states[k];
            assert(self.state_ok(current_states@[k as int], self.s as int, self.t_next as int, len, false));
            let ghost old_tree = self.solution_tree@;
            let ghost old_history = self.history@;
            let ghost old_self = *self;
            let prev_fragment_idx = self.solution_tree.push_fragment(state.sol_fragment);
            self.history = Ghost(self.history@.push(state.decisions@));
            state.sol_fragment.update_previous_idx(Some(prev_fragment_idx));
            state.sol_fragment.clear_value();
            proof {
                assert(state.decisions@.take(len) =~= state.decisions@);
                assert(stored_ok(self.history@, self.solution_tree@, prev_fragment_idx as int)) by {
                    let h = self.history@[prev_fragment_idx as int];
                    assert(h == state.decisions@);
                    assert forall|i: int| 0 <= i < 64 implies #[trigger] decision_at(
                        self.solution_tree@[prev_fragment_idx as int].value,
                        i as u64,
                    ) == h[h.len() - 1 - i] by {
                        assert(old_self.encodes(current_states@[k as int].sol_fragment, h, len, false));
                    }
                    assert(old_self.encodes(current_states@[k as int].sol_fragment, h, len, false));
                }
                assert forall|q: int| 0 <= q < self.solution_tree@.len() implies #[trigger] stored_ok(
                    self.history@,
                    self.solution_tree@,
                    q,
                ) by {
                    if q < old_tree.len() {
                        assert(stored_ok(old_history, old_tree, q));
                        assert(self.history@[q] == old_history[q]);
                        assert(self.solution_tree@[q] == old_tree[q]);
                        match old_tree[q].previous_idx {
                            Some(p) => {
                                assert(self.history@[p as int] == old_history[p as int]);
                            },
                            None => {},
                        }
                    }
                }
                assert forall|j: int| 0 <= j < current_states@.len() && j != k implies self.state_ok(
                    #[trigger] current_states@[j],
                    self.s as int,
                    self.t_next as int,
                    len,
                    j < k,
                ) by {
                    assert(old_self.state_ok(current_states@[j], self.s as int, self.t_next as int, len, j < k));
                }
                assert(old_self.encodes(old_self.best_sol_fragment, old_self.best_decisions@, old_self.best_sol_item + 1, false));
            }
            current_states.set(k, state);
            k += 1;
            proof {
                assert(self.solution_tree@ =~= tree0 + states0.take(k as int).map_values(
                    |st: MinKnapState| st.sol_fragment,
                ));
            }
        }
        proof {
            assert(states0.take(k as int) =~= states0);
            if feasible_below(states0, self.cap(), self.profit_lower_bound as int) {
                assert forall|q: int| 0 <= q < current_states@.len() && (#[trigger] current_states@[q]).weight
                    <= self.cap() implies current_states@[q].profit <= self.profit_lower_bound by {
                    assert(states0[q].weight == current_states@[q].weight);
                }
            }
            if strictly_sorted(states0) {
                assert forall|a: int, b: int| 0 <= a < b < current_states@.len() implies (#[trigger] current_states@[a]).weight
                    < (#[trigger] current_states@[b]).weight && current_states@[a].profit < current_states@[b].profit by {
                    assert(states0[a].weight < states0[b].weight);
                }
            }
        }
    }

    /// Applies the best state's decisions to the decision vector, walking its
    /// fragments from the newest back: a set bit at a position below the break
    /// index removes that item, one at or above it adds that item.
    fn reconstruct_solution(&mut self)
        requires
            old(self).inv(),
            old(self).break_bits_ok(),
            trav_ok(old(self).order(), old(self).traversal_order@),
        ensures
            free_items_marked(final(self).items(), bits_of(final(self).decision_vec)),
            final(self).problem_instance == old(self).problem_instance,
            bits_weight(
                final(self).items(),
                bits_of(final(self).decision_vec),
                final(self).items().len() as int,
            ) == old(self).best_sol_weight,
            bits_profit(
                final(self).items(),
                bits_of(final(self).decision_vec),
                final(self).items().len() as int,
            ) == old(self).base_profit + old(self).profit_lower_bound,
            final(self).base_profit == old(self).base_profit,
            final(self).profit_lower_bound == old(self).profit_lower_bound,
            old(self).traversal_order@.len() == 0 ==> bits_of(final(self).decision_vec) == bits_of(
                old(self).decision_vec,
            ),
            forall|j: int|
                0 <= j < old(self).items().len() && (forall|k: int|
                    0 <= k < old(self).traversal_order@.len() ==> old(self).order()[old(
                        self,
                    ).traversal_order@[k] as int] != j) ==> #[trigger] bits_of(
                    final(self).decision_vec,
                )[j] == bits_of(old(self).decision_vec)[j],
    {
        let ghost base_bits = bits_of(self.decision_vec);
        let ghost best = self.best_decisions@;
        let ghost lb = self.best_sol_item + 1;
        proof {
            lemma_applied_weight(
                self.items(),
                base_bits,
                self.order(),
                self.traversal_order@,
                self.b(),
                best,
                0,
                lb,
            );
        }
        if self.traversal_order.len() == 0 {
            proof {
                lemma_applied_none(base_bits, self.order(), self.traversal_order@, self.b(), best, 0, lb);
            }
            return;
        }
        let b = self.break_solution.break_index;
        let mut decision_pos: usize = self.best_sol_item;
        let mut fragment = self.best_sol_fragment;
        loop
            invariant_except_break
                decision_pos < lb,
                self.encodes(fragment, best, decision_pos + 1, false),
                bits_of(self.decision_vec) == applied(
                    base_bits,
                    self.order(),
                    self.traversal_order@,
                    b as int,
                    best,
                    decision_pos + 1,
                    lb,
                ),
            invariant
                self.inv(),
                b == self.b(),
                self.problem_instance == old(self).problem_instance,
                self.base_profit == old(self).base_profit,
                self.profit_lower_bound == old(self).profit_lower_bound,
                self.efficiency_ordering@ == old(self).efficiency_ordering@,
                self.traversal_order@ == old(self).traversal_order@,
                lb == self.best_sol_item + 1,
                best.len() == lb,
                lb <= self.traversal_order@.len(),
                trav_ok(self.order(), self.traversal_order@),
                bits_weight(
                    self.items(),
                    applied(base_bits, self.order(), self.traversal_order@, b as int, best, 0, lb),
                    self.items().len() as int,
                ) == old(self).best_sol_weight,
                bits_profit(
                    self.items(),
                    applied(base_bits, self.order(), self.traversal_order@, b as int, best, 0, lb),
                    self.items().len() as int,
                ) == old(self).base_profit + old(self).profit_lower_bound,
            ensures
                self.inv(),
                self.problem_instance == old(self).problem_instance,
                self.base_profit == old(self).base_profit,
                self.profit_lower_bound == old(self).profit_lower_bound,
                self.efficiency_ordering@ == old(self).efficiency_ordering@,
                self.traversal_order@ == old(self).traversal_order@,
                bits_weight(
                    self.items(),
                    applied(base_bits, self.order(), self.traversal_order@, b as int, best, 0, lb),
                    self.items().len() as int,
                ) == old(self).best_sol_weight,
                bits_profit(
                    self.items(),
                    applied(base_bits, self.order(), self.traversal_order@, b as int, best, 0, lb),
                    self.items().len() as int,
                ) == old(self).base_profit + old(self).profit_lower_bound,
                bits_of(self.decision_vec) == applied(
                    base_bits,
                    self.order(),
                    self.traversal_order@,
                    b as int,
                    best,
                    0,
                    lb,
                ),
            decreases decision_pos,
        {
            let elements_in_fragment: usize = decision_pos % 64 + 1;
            let mut i: usize = 0;
            while i < elements_in_fragment
                invariant
                    self.inv(),
                    b == self.b(),
                    self.problem_instance == old(self).problem_instance,
                    self.base_profit == old(self).base_profit,
                    self.profit_lower_bound == old(self).profit_lower_bound,
                    self.efficiency_ordering@ == old(self).efficiency_ordering@,
                    self.traversal_order@ == old(self).traversal_order@,
                    lb == self.best_sol_item + 1,
                    best.len() == lb,
                    lb <= self.traversal_order@.len(),
                    trav_ok(self.order(), self.traversal_order@),
                    bits_weight(
                        self.items(),
                        applied(base_bits, self.order(), self.traversal_order@, b as int, best, 0, lb),
                        self.items().len() as int,
                    ) == old(self).best_sol_weight,
                    bits_profit(
                        self.items(),
                        applied(base_bits, self.order(), self.traversal_order@, b as int, best, 0, lb),
                        self.items().len() as int,
                    ) == old(self).base_profit + old(self).profit_lower_bound,
                    decision_pos < lb,
                    self.encodes(fragment, best, decision_pos + 1, false),
                    elements_in_fragment == decision_pos % 64 + 1,
                    0 <= i <= elements_in_fragment,
                    bits_of(self.decision_vec) == applied(
                        base_bits,
                        self.order(),
                        self.traversal_order@,
                        b as int,
                        best,
                        decision_pos + 1 - i,
                        lb,
                    ),
                decreases elements_in_fragment - i,
            {
                proof {
                    assert(frag_count(decision_pos + 1, false) == elements_in_fragment);
                    assert(decision_at(fragment.value, i as u64) == best[decision_pos - i]);
                }
                if fragment.get_decision(i) {
                    let efficiency_order_idx = self.traversal_order[decision_pos - i];
                    let actual_item_idx = self.efficiency_ordering[efficiency_order_idx];
                    let removed = efficiency_order_idx < b;
                    set_decision(&mut self.decision_vec, actual_item_idx, !removed);
                }
                i += 1;
            }
            match fragment.get_previous_idx() {
                Some(prev_idx) => {
                    match self.solution_tree.get_fragment(prev_idx) {
                        Some(f) => {
                            let ghost base = decision_pos + 1 - elements_in_fragment;
                            proof {
                                assert(stored_ok(self.history@, self.solution_tree@, prev_idx as int));
                                let h = self.history@[prev_idx as int];
                                assert(h == best.take(base));
                                assert(base <= best.len());
                                assert(h.len() == base);
                                assert(base % 64 == 0 && base >= 64);
                                lemma_mod64(base);
                                assert forall|j: int| 0 <= j < 64 implies #[trigger] decision_at(
                                    f.value,
                                    j as u64,
                                ) == best[base - 1 - j] by {
                                    assert(decision_at(f.value, j as u64) == h[h.len() - 1 - j]);
                                    assert(h[base - 1 - j] == best[base - 1 - j]);
                                }
                                match f.previous_idx {
                                    Some(p) => {
                                        assert(stored_ok(self.history@, self.solution_tree@, p as int));
                                        assert(h.take(h.len() - 64) =~= best.take(base - 64));
                                    },
                                    None => {},
                                }
                            }
                            fragment = *f;
                            decision_pos = decision_pos.saturating_sub(elements_in_fragment);
                        },
                        None => break,
                    }
                },
                None => break,
            }
        }
        proof {
            assert forall|j: int|
                0 <= j < old(self).items().len() && (forall|k: int|
                    0 <= k < old(self).traversal_order@.len() ==> old(self).order()[old(
                        self,
                    ).traversal_order@[k] as int] != j) implies #[trigger] bits_of(
                self.decision_vec,
            )[j] == base_bits[j] by {
                assert forall|k: int| 0 <= k < lb && best[k] implies self.order()[self.traversal_order@[k] as int] != j by {
                    assert(k < self.traversal_order@.len());
                }
                lemma_applied_untouched(
                    base_bits,
                    self.order(),
                    self.traversal_order@,
                    self.b(),
                    best,
                    0,
                    lb,
                    j,
                );
            }
        }
    }

    /// Runs the core expansion and returns the decision vector of the best
    /// solution found, whose marked items fit in the capacity, and its profit
    /// (the best core profit plus the profit of the zero-weight items).
    #[verifier::rlimit(100)]
    fn solve(self) -> (r: (DecisionVec, u128))
        requires
            self.inv(),
            self.break_bits_ok(),
            prefix_profit(self.items(), self.items().len() as int) <= u64::MAX,
            self.profit_lower_bound == self.break_solution.total_profit,
            self.s == self.b(),
            self.t_next == self.b(),
            self.traversal_order@.len() == 0,
            sorted_by_efficiency(self.items(), self.order()),
            self.base_profit == bits_profit(self.items(), zero_bits(self.items()), self.items().len() as int),
            forall|j: int|
                0 <= j < self.items().len() && 0 < (#[trigger] self.items()[j]).weight <= self.cap()
                    ==> self.order().contains(j as usize),
        ensures
            free_items_marked(self.items(), bits_of(r.0)),
            self.b() == self.order().len() ==> bits_of(r.0) == bits_of(self.decision_vec),
            bits_weight(self.items(), bits_of(r.0), self.items().len() as int) <= self.cap(),
            bits_profit(self.items(), bits_of(r.0), self.items().len() as int) == r.1,
            r.1 == best_value(self.items(), self.items().len() as int, self.cap()),
    {
        let mut inst = self;
        let n_items: usize = inst.problem_instance.items().len();
        let n_order: usize = inst.efficiency_ordering.len();
        let ghost items = inst.items();
        let ghost order = inst.order();
        let ghost cap = inst.cap();
        let ghost m = order.len() as int;
        let ghost b = inst.b();
        let ghost o = lemma_opt_mask(items, order, cap, inst.base_profit as int);
        let ghost vw = crate::knapsack::exactness::zp(items, order, o, 0, m, m);
        let ghost best = best_value(items, items.len() as int, cap);
        proof {
            lemma_bits_profit_bound(inst.items(), bits_of(inst.decision_vec), inst.items().len() as int);
            crate::knapsack::exactness::lemma_z_bounds(items, order, o, 0, m, m);
            lemma_order_profit_fits(items, order, m);
            assert(crate::knapsack::exactness::order_valid(items, order));
        }
        if inst.break_solution.break_index == inst.efficiency_ordering.len() {
            let value = inst.break_solution.total_profit + inst.base_profit as u128;
            proof {
                lemma_bits_at_most_best(items, bits_of(inst.decision_vec), items.len() as int, cap);
            }
            return (inst.decision_vec, value);
        }
        let mut current_states: Vec<MinKnapState> = Vec::new();
        let mut next_states: Vec<MinKnapState> = Vec::new();
        current_states.push(
            MinKnapState {
                weight: inst.break_solution.total_weight,
                profit: inst.break_solution.total_profit,
                sol_fragment: SolutionFragment::default(),
                decisions: Ghost(Seq::empty()),
            },
        );
        let n = inst.efficiency_ordering.len();
        let ghost input = inst.problem_instance;
        proof {
            crate::knapsack::exactness::lemma_z_start(items, order, o, b, m);
            assert(current_states@[0].weight <= crate::knapsack::exactness::zw(items, order, o, b, b, m));
        }
        while current_states.len() > 0 && (inst.t_next < n || inst.s > 0)
            invariant
                inst.inv(),
                inst.break_bits_ok(),
                inst.problem_instance == input,
                n == inst.order().len(),
                inst.states_ok(
                    current_states@,
                    inst.s as int,
                    inst.t_next as int,
                    inst.traversal_order@.len() as int,
                    true,
                ),
                inst.trav_covers(inst.s as int, inst.t_next as int),
                next_states@.len() == 0,
                strictly_sorted(current_states@),
                feasible_below(current_states@, inst.cap(), inst.profit_lower_bound as int),
                items == inst.items(),
                order == inst.order(),
                cap == inst.cap(),
                m == n,
                b == inst.b(),
                crate::knapsack::exactness::order_valid(items, order),
                crate::knapsack::exactness::zw(items, order, o, 0, m, m) <= cap,
                0 <= vw <= u128::MAX,
                vw == crate::knapsack::exactness::zp(items, order, o, 0, m, m),
                o.len() == m,
                best == best_value(items, items.len() as int, cap),
                items.len() <= usize::MAX,
                best <= inst.base_profit + vw,
                inst.profit_lower_bound >= vw || covered(
                    current_states@,
                    crate::knapsack::exactness::zw(items, order, o, inst.s as int, inst.t_next as int, m),
                    crate::knapsack::exactness::zp(items, order, o, inst.s as int, inst.t_next as int, m),
                ),
            decreases (n - inst.t_next) + inst.s,
        {
            if inst.t_next < n {
                let ghost s0 = inst.s as int;
                let ghost t0 = inst.t_next as int;
                let ghost lb0 = inst.profit_lower_bound as int;
                let ghost cur0 = current_states@;
                let ghost maxw = inst.max_allowed_weight as int;
                let ghost pre = inst;
                inst.t_next = inst.t_next + 1;
                proof {
                    lemma_order_monotone(inst.items(), inst.order(), inst.t_next - 1, inst.t_next as int);
                }
                inst.explore_item_t(&current_states, &mut next_states);
                let ghost nx = next_states@;
                swap_state_buffers(&mut current_states, &mut next_states);
                inst.update_solution_history(&mut current_states);
                proof {
                    let it = items[order[t0] as int];
                    crate::knapsack::exactness::lemma_z_step_t(items, order, o, s0, t0, m);
                    crate::knapsack::exactness::lemma_z_cap(items, order, o, s0, t0 + 1, b, m);
                    crate::knapsack::exactness::lemma_z_bounds(items, order, o, s0, t0 + 1, m);
                    crate::knapsack::exactness::lemma_ub_covers(items, order, o, cap, s0, t0 + 1);
                    lemma_order_profit_fits(items, order, t0 + 1);
                    assert forall|j: int| 0 <= j < cur0.len() implies (#[trigger] cur0[j]).weight <= maxw
                        && cur0[j].profit + it.profit <= u128::MAX by {
                        assert(pre.state_ok(cur0[j], s0, t0, pre.traversal_order@.len() as int, true));
                    }
                    lemma_dominance_step(
                        items,
                        order,
                        cap,
                        maxw,
                        s0,
                        t0 + 1,
                        cur0,
                        nx,
                        lb0,
                        inst.profit_lower_bound as int,
                        vw,
                        crate::knapsack::exactness::zw(items, order, o, s0, t0, m),
                        crate::knapsack::exactness::zp(items, order, o, s0, t0, m),
                        crate::knapsack::exactness::zw(items, order, o, s0, t0 + 1, m),
                        crate::knapsack::exactness::zp(items, order, o, s0, t0 + 1, m),
                        it.weight as int,
                        it.profit as int,
                        o[t0],
                    );
                    if inst.profit_lower_bound < vw {
                        lemma_covered_transfer(
                            nx,
                            current_states@,
                            crate::knapsack::exactness::zw(items, order, o, s0, t0 + 1, m),
                            crate::knapsack::exactness::zp(items, order, o, s0, t0 + 1, m),
                        );
                    }
                }
            }
            if inst.s > 0 {
                let ghost s0 = inst.s as int;
                let ghost t0 = inst.t_next as int;
                let ghost lb0 = inst.profit_lower_bound as int;
                let ghost cur0 = current_states@;
                let ghost maxw = inst.max_allowed_weight as int;
                let ghost pre = inst;
                inst.s = inst.s - 1;
                inst.explore_item_s(&current_states, &mut next_states);
                let ghost nx = next_states@;
                swap_state_buffers(&mut current_states, &mut next_states);
                inst.update_solution_history(&mut current_states);
                proof {
                    let it = items[order[s0 - 1] as int];
                    crate::knapsack::exactness::lemma_z_step_s(items, order, o, s0 - 1, t0, m);
                    crate::knapsack::exactness::lemma_z_cap(items, order, o, s0 - 1, t0, b, m);
                    crate::knapsack::exactness::lemma_z_bounds(items, order, o, s0 - 1, t0, m);
                    crate::knapsack::exactness::lemma_ub_covers(items, order, o, cap, s0 - 1, t0);
                    assert forall|j: int| 0 <= j < cur0.len() implies (#[trigger] cur0[j]).weight <= maxw
                        && cur0[j].profit - it.profit <= u128::MAX by {
                        assert(pre.state_ok(cur0[j], s0, t0, pre.traversal_order@.len() as int, true));
                    }
                    lemma_dominance_step(
                        items,
                        order,
                        cap,
                        maxw,
                        s0 - 1,
                        t0,
                        cur0,
                        nx,
                        lb0,
                        inst.profit_lower_bound as int,
                        vw,
                        crate::knapsack::exactness::zw(items, order, o, s0, t0, m),
                        crate::knapsack::exactness::zp(items, order, o, s0, t0, m),
                        crate::knapsack::exactness::zw(items, order, o, s0 - 1, t0, m),
                        crate::knapsack::exactness::zp(items, order, o, s0 - 1, t0, m),
                        -(it.weight as int),
                        -(it.profit as int),
                        !o[s0 - 1],
                    );
                    if inst.profit_lower_bound < vw {
                        lemma_covered_transfer(
                            nx,
                            current_states@,
                            crate::knapsack::exactness::zw(items, order, o, s0 - 1, t0, m),
                            crate::knapsack::exactness::zp(items, order, o, s0 - 1, t0, m),
                        );
                    }
                }
            }
        }
        proof {
            if inst.profit_lower_bound < vw {
                let w = crate::knapsack::exactness::zw(items, order, o, inst.s as int, inst.t_next as int, m);
                let p = crate::knapsack::exactness::zp(items, order, o, inst.s as int, inst.t_next as int, m);
                let k = choose|k: int| 0 <= k < current_states@.len() && (#[trigger] current_states@[k]).weight <= w && current_states@[k].profit >= p;
                assert(current_states@[k].weight <= cap);
            }
        }
        inst.reconstruct_solution();
        proof {
            lemma_bits_profit_bound(inst.items(), bits_of(inst.decision_vec), inst.items().len() as int);
            lemma_prefix_profit_nonneg(inst.items());
            lemma_bits_at_most_best(items, bits_of(inst.decision_vec), items.len() as int, cap);
        }
        let value = inst.profit_lower_bound + inst.base_profit as u128;
        (inst.decision_vec, value)
    }
}

/// Exact solver by Pisinger's primal-dual expanding-core algorithm.
pub struct MinKnapSolver;

impl KnapsackSolver for MinKnapSolver {
    open spec fn accepts(&self, input: &KnapsackInput) -> bool {
        input.total_profit() <= u64::MAX && input.items_view().len() <= usize::MAX >> 3usize
    }

    fn accepts_input(&self, input: &KnapsackInput) -> (r: bool) {
        input.checked_total_profit().is_some() && input.items().len() <= usize::MAX >> 3usize
    }

    /// An optimal selection, reported with its profit (the best core profit
    /// found plus the profit of the zero-weight items), that contains every
    /// zero-weight item, and every item when all of them fit together.
    fn solve(&self, input: &KnapsackInput) -> (r: KnapsackSolution)
        ensures
            is_sound_solution(input, &r),
            r.total_value == optimum(input),
            forall|j: int|
                0 <= j < input.items_view().len() && input.items_view()[j].weight == 0
                    ==> r.items@.contains(j as usize),
            prefix_weight(input.items_view(), input.items_view().len() as int)
                <= input.capacity_view() ==> r.items@ == Seq::new(
                input.items_view().len(),
                |k: int| k as usize,
            ),
    {
        let instance = MinKnapInstance::new(input);
        let ghost first_bits = bits_of(instance.decision_vec);
        let ghost order = instance.order();
        let ghost b = instance.b();
        let (decision_vec, value) = instance.solve();
        let ghost all_fit = prefix_weight(input.items_view(), input.items_view().len() as int)
            <= input.capacity_view();
        proof {
            if all_fit {
                assert forall|j: int| 0 <= j < input.items_view().len() implies bits_of(decision_vec)[j] by {
                    let items = input.items_view();
                    if items[j].weight > 0 {
                        lemma_item_weight_at_most_prefix(items, j, items.len() as int);
                        assert(order.contains(j as usize));
                        let k = choose|k: int| 0 <= k < order.len() && order[k] == j as usize;
                        assert(first_bits[order[k] as int]);
                    }
                }
            }
        }
        let items = input.items();
        let cap = input.capacity();
        let n: usize = items.len();
        let mut selected: Vec<usize> = Vec::new();
        let mut i: usize = 0;
        while i < n
            invariant
                n == items@.len(),
                items@ == input.items_view(),
                input.total_profit() <= u64::MAX,
                free_items_marked(items@, bits_of(decision_vec)),
                0 <= i <= n,
                is_selection(selected@, i as int),
                sum_weight(items@, selected@) == bits_weight(items@, bits_of(decision_vec), i as int),
                bits_weight(items@, bits_of(decision_vec), n as int) <= cap,
                cap == input.capacity_view(),
                sum_profit(items@, selected@) == bits_profit(items@, bits_of(decision_vec), i as int),
                bits_profit(items@, bits_of(decision_vec), n as int) == value,
                forall|j: int| 0 <= j < i && bits_of(decision_vec)[j] ==> selected@.contains(j as usize),
            decreases n - i,
        {
            if get_decision_bit(&decision_vec, i) {
                proof {
                    lemma_sum_push(items@, selected@, i);
                    lemma_selection_push(selected@, i as int);
                    lemma_profit_at_most_prefix(items@, selected@.push(i), i as int + 1);
                    crate::knapsack::model::lemma_prefix_profit_monotone(items@, i as int + 1, n as int);
                    crate::knapsack::model::lemma_sums_nonneg(items@, selected@);
                }
                let ghost old_sel = selected@;
                selected.push(i);
                proof {
                    assert forall|j: int| 0 <= j < i + 1 && bits_of(decision_vec)[j] implies selected@.contains(j as usize) by {
                        if j < i {
                            assert(old_sel.contains(j as usize));
                            let k = choose|k: int| 0 <= k < old_sel.len() && old_sel[k] == j as usize;
                            assert(selected@[k] == j as usize);
                        } else {
                            assert(selected@[selected@.len() - 1] == j as usize);
                        }
                    }
                }
            }
            i += 1;
        }
        proof {
            crate::knapsack::model::lemma_sums_nonneg(items@, selected@);
            if all_fit {
                assert forall|j: usize| j < n implies #[trigger] selected@.contains(j) by {
                    assert(bits_of(decision_vec)[j as int]);
                }
                crate::knapsack::laws::lemma_full_selection(selected@, n as int);
                crate::knapsack::laws::lemma_all_indices_profit(items@, n as int);
            }
        }
        proof {
            lemma_best_upper(items@, selected@, n as int, cap as int);
            assert forall|j: int|
                0 <= j < n && items@[j].weight == 0 implies selected@.contains(j as usize) by {
                assert(bits_of(decision_vec)[j]);
            }
        }
        proof {
            lemma_bits_profit_bound(items@, bits_of(decision_vec), n as int);
        }
        KnapsackSolution { items: selected, total_value: value as u64 }
    }

    fn method(&self) -> (r: KnapsackMethod)
        ensures
            r == KnapsackMethod::MinKnap,
    {
        KnapsackMethod::MinKnap
    }
}

} // verus!
