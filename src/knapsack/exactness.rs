//! Why the core expansion finds the optimum: a selection fixed on the core
//! walls, its linear-relaxation bound, and how it changes as the walls move.
use vstd::prelude::*;

use crate::knapsack::minknap::{order_weight, order_profit, sorted_by_efficiency, upper_bound_of};
use crate::knapsack::KnapsackItem;

verus! {

/// Position `x` of the efficiency order is taken by the selection that takes
/// every position below `s`, the positions of `o` in `[s, t)`, and none from `t` on.
pub open spec fn zin(o: Seq<bool>, s: int, t: int, x: int) -> bool {
    x < s || (x < t && o[x])
}

/// Weight of that selection among the first `k` positions.
pub open spec fn zw(
    items: Seq<KnapsackItem>,
    order: Seq<usize>,
    o: Seq<bool>,
    s: int,
    t: int,
    k: int,
) -> int
    decreases k,
{
    if k <= 0 {
        0
    } else {
        zw(items, order, o, s, t, k - 1) + if zin(o, s, t, k - 1) {
            items[order[k - 1] as int].weight as int
        } else {
            0
        }
    }
}

/// Profit of that selection among the first `k` positions.
pub open spec fn zp(
    items: Seq<KnapsackItem>,
    order: Seq<usize>,
    o: Seq<bool>,
    s: int,
    t: int,
    k: int,
) -> int
    decreases k,
{
    if k <= 0 {
        0
    } else {
        zp(items, order, o, s, t, k - 1) + if zin(o, s, t, k - 1) {
            items[order[k - 1] as int].profit as int
        } else {
            0
        }
    }
}

proof fn lemma_lp_core(
    items: Seq<KnapsackItem>,
    order: Seq<usize>,
    o: Seq<bool>,
    s: int,
    t: int,
    mm: int,
    ep: int,
    ew: int,
    k: int,
)
    requires
        0 <= k <= mm,
        s <= t,
        forall|x: int|
            0 <= x < k ==> (x < s ==> (#[trigger] items[order[x] as int]).profit * ew >= ep
                * items[order[x] as int].weight) && (x >= t ==> items[order[x] as int].profit * ew
                <= ep * items[order[x] as int].weight),
    ensures
        ew * (zp(items, order, o, 0, mm, k) - zp(items, order, o, s, t, k)) <= ep * (zw(
            items,
            order,
            o,
            0,
            mm,
            k,
        ) - zw(items, order, o, s, t, k)),
    decreases k,
{
    if k > 0 {
        lemma_lp_core(items, order, o, s, t, mm, ep, ew, k - 1);
        let x = k - 1;
        let a = items[order[x] as int].profit as int;
        let c = items[order[x] as int].weight as int;
        let xp = zp(items, order, o, 0, mm, x) - zp(items, order, o, s, t, x);
        let xw = zw(items, order, o, 0, mm, x) - zw(items, order, o, s, t, x);
        let da: int = (if zin(o, 0, mm, x) {
            a
        } else {
            0
        }) - (if zin(o, s, t, x) {
            a
        } else {
            0
        });
        let dc: int = (if zin(o, 0, mm, x) {
            c
        } else {
            0
        }) - (if zin(o, s, t, x) {
            c
        } else {
            0
        });
        assert(zp(items, order, o, 0, mm, k) - zp(items, order, o, s, t, k) == xp + da);
        assert(zw(items, order, o, 0, mm, k) - zw(items, order, o, s, t, k) == xw + dc);
        if zin(o, 0, mm, x) && !zin(o, s, t, x) {
            assert(x >= t);
            assert(ew * da <= ep * dc) by (nonlinear_arith)
                requires
                    a * ew <= ep * c,
                    da == a,
                    dc == c,
            ;
        } else if !zin(o, 0, mm, x) && zin(o, s, t, x) {
            assert(x < s);
            assert(ew * da <= ep * dc) by (nonlinear_arith)
                requires
                    a * ew >= ep * c,
                    da == -a,
                    dc == -c,
            ;
        } else {
            assert(da == 0 && dc == 0);
        }
        assert(ew * (xp + da) <= ep * (xw + dc)) by (nonlinear_arith)
            requires
                ew * xp <= ep * xw,
                ew * da <= ep * dc,
        ;
    } else {
        assert(ew * 0 <= ep * 0) by (nonlinear_arith);
    }
}

proof fn lemma_div_floor(a: int, b: int, w: int)
    requires
        w > 0,
        a * w <= b,
    ensures
        a <= b / w,
{
    vstd::arithmetic::div_mod::lemma_div_is_ordered(a * w, b, w);
    vstd::arithmetic::div_mod::lemma_div_multiples_vanish(a, w);
    assert(a * w == w * a) by (nonlinear_arith);
}

proof fn lemma_div_ceil(a: int, b: int, w: int)
    requires
        w > 0,
        a * w >= b,
    ensures
        a >= b / w,
{
    vstd::arithmetic::div_mod::lemma_div_is_ordered(b, a * w, w);
    vstd::arithmetic::div_mod::lemma_div_multiples_vanish(a, w);
    assert(a * w == w * a) by (nonlinear_arith);
}

/// The efficiency order's positions, as the core proofs need them.
pub open spec fn order_valid(items: Seq<KnapsackItem>, order: Seq<usize>) -> bool {
    &&& sorted_by_efficiency(items, order)
    &&& forall|k: int|
        0 <= k < order.len() ==> order[k] < items.len() && (#[trigger] items[order[k] as int]).weight
            > 0
}

/// The linear-relaxation bound of the selection fixed on the walls `[s, t)`
/// is at least the profit of the whole selection `o`, when `o` fits.
pub proof fn lemma_ub_covers(
    items: Seq<KnapsackItem>,
    order: Seq<usize>,
    o: Seq<bool>,
    cap: int,
    s: int,
    t: int,
)
    requires
        order_valid(items, order),
        0 <= s <= t <= order.len(),
        cap >= 0,
        zw(items, order, o, 0, order.len() as int, order.len() as int) <= cap,
        0 <= zp(items, order, o, 0, order.len() as int, order.len() as int) <= u128::MAX,
    ensures
        zp(items, order, o, 0, order.len() as int, order.len() as int) <= upper_bound_of(
            items,
            order,
            cap,
            s,
            t,
            zw(items, order, o, s, t, order.len() as int),
            zp(items, order, o, s, t, order.len() as int),
        ),
{
    let m = order.len() as int;
    let vw = zp(items, order, o, 0, m, m);
    let ow = zw(items, order, o, 0, m, m);
    let w = zw(items, order, o, s, t, m);
    let p = zp(items, order, o, s, t, m);
    if w <= cap {
        if t >= m {
            lemma_lp_core(items, order, o, s, t, m, 0, 1, m);
            assert(vw <= p) by (nonlinear_arith)
                requires
                    1 * (vw - p) <= 0 * (ow - w),
            ;
        } else {
            let e = items[order[t] as int];
            let ep = e.profit as int;
            let ew = e.weight as int;
            assert forall|x: int|
                0 <= x < m implies (x < s ==> (#[trigger] items[order[x] as int]).profit * ew >= ep
                * items[order[x] as int].weight) && (x >= t ==> items[order[x] as int].profit * ew
                <= ep * items[order[x] as int].weight) by {
                if x < t {
                    assert(items[order[x] as int].profit * items[order[t] as int].weight
                        >= items[order[t] as int].profit * items[order[x] as int].weight);
                } else if x > t {
                    assert(items[order[t] as int].profit * items[order[x] as int].weight
                        >= items[order[x] as int].profit * items[order[t] as int].weight);
                }
            }
            lemma_lp_core(items, order, o, s, t, m, ep, ew, m);
            assert((vw - p) * ew <= (cap - w) * ep) by (nonlinear_arith)
                requires
                    ew * (vw - p) <= ep * (ow - w),
                    ow <= cap,
                    ep >= 0,
            ;
            lemma_div_floor(vw - p, (cap - w) * ep, ew);
        }
    } else {
        if s == 0 {
            lemma_lp_core(items, order, o, s, t, m, 1, 0, m);
            assert(w <= ow) by (nonlinear_arith)
                requires
                    0 * (vw - p) <= 1 * (ow - w),
            ;
        } else {
            let e = items[order[s - 1] as int];
            let ep = e.profit as int;
            let ew = e.weight as int;
            assert forall|x: int|
                0 <= x < m implies (x < s ==> (#[trigger] items[order[x] as int]).profit * ew >= ep
                * items[order[x] as int].weight) && (x >= t ==> items[order[x] as int].profit * ew
                <= ep * items[order[x] as int].weight) by {
                if x < s - 1 {
                    assert(items[order[x] as int].profit * items[order[s - 1] as int].weight
                        >= items[order[s - 1] as int].profit * items[order[x] as int].weight);
                } else if x >= t {
                    assert(items[order[s - 1] as int].profit * items[order[x] as int].weight
                        >= items[order[x] as int].profit * items[order[s - 1] as int].weight);
                }
            }
            lemma_lp_core(items, order, o, s, t, m, ep, ew, m);
            assert((p - vw) * ew >= (w - cap) * ep) by (nonlinear_arith)
                requires
                    ew * (vw - p) <= ep * (ow - w),
                    ow <= cap,
                    ep >= 0,
            ;
            lemma_div_ceil(p - vw, (w - cap) * ep, ew);
        }
    }
}

/// A state that weighs no more and earns no less has a bound no lower.
pub proof fn lemma_ub_mono(
    items: Seq<KnapsackItem>,
    order: Seq<usize>,
    cap: int,
    s: int,
    t: int,
    xw: int,
    xp: int,
    w: int,
    p: int,
)
    requires
        order_valid(items, order),
        0 <= s <= t <= order.len(),
        cap >= 0,
        xw <= w,
        p <= xp <= u128::MAX,
        0 <= p,
    ensures
        upper_bound_of(items, order, cap, s, t, xw, xp) >= upper_bound_of(
            items,
            order,
            cap,
            s,
            t,
            w,
            p,
        ),
{
    if t < order.len() {
        let e = items[order[t] as int];
        let ep = e.profit as int;
        let ew = e.weight as int;
        assert(ew > 0);
        if xw <= cap {
            assert((cap - xw) * ep >= 0) by (nonlinear_arith)
                requires
                    cap - xw >= 0,
                    ep >= 0,
            ;
            vstd::arithmetic::div_mod::lemma_div_pos_is_pos((cap - xw) * ep, ew);
        }
        if w <= cap {
            assert((cap - xw) * ep >= (cap - w) * ep) by (nonlinear_arith)
                requires
                    cap - xw >= cap - w,
                    ep >= 0,
            ;
            vstd::arithmetic::div_mod::lemma_div_is_ordered((cap - w) * ep, (cap - xw) * ep, ew);
        }
    }
    if s > 0 {
        let e = items[order[s - 1] as int];
        let ep = e.profit as int;
        let ew = e.weight as int;
        assert(ew > 0);
        if w > cap {
            assert((w - cap) * ep >= 0) by (nonlinear_arith)
                requires
                    w - cap >= 0,
                    ep >= 0,
            ;
            vstd::arithmetic::div_mod::lemma_div_pos_is_pos((w - cap) * ep, ew);
        }
        if xw > cap {
            assert((w - cap) * ep >= (xw - cap) * ep) by (nonlinear_arith)
                requires
                    w - cap >= xw - cap,
                    ep >= 0,
            ;
            vstd::arithmetic::div_mod::lemma_div_is_ordered((xw - cap) * ep, (w - cap) * ep, ew);
        }
    }
}

/// Moving the right wall from `t` to `t + 1` adds the position `t` if `o` takes it.
pub proof fn lemma_z_step_t(
    items: Seq<KnapsackItem>,
    order: Seq<usize>,
    o: Seq<bool>,
    s: int,
    t: int,
    k: int,
)
    requires
        0 <= s <= t,
        0 <= k,
    ensures
        zw(items, order, o, s, t + 1, k) == zw(items, order, o, s, t, k) + if t < k && o[t] {
            items[order[t] as int].weight as int
        } else {
            0
        },
        zp(items, order, o, s, t + 1, k) == zp(items, order, o, s, t, k) + if t < k && o[t] {
            items[order[t] as int].profit as int
        } else {
            0
        },
    decreases k,
{
    if k > 0 {
        lemma_z_step_t(items, order, o, s, t, k - 1);
        let x = k - 1;
        if x == t {
            assert(!zin(o, s, t, x));
            assert(zin(o, s, t + 1, x) == o[t]);
        } else {
            assert(zin(o, s, t + 1, x) == zin(o, s, t, x));
        }
    }
}

/// Moving the left wall from `s + 1` to `s` drops the position `s` unless `o` takes it.
pub proof fn lemma_z_step_s(
    items: Seq<KnapsackItem>,
    order: Seq<usize>,
    o: Seq<bool>,
    s: int,
    t: int,
    k: int,
)
    requires
        0 <= s < t,
        0 <= k,
    ensures
        zw(items, order, o, s, t, k) == zw(items, order, o, s + 1, t, k) - if s < k && !o[s] {
            items[order[s] as int].weight as int
        } else {
            0
        },
        zp(items, order, o, s, t, k) == zp(items, order, o, s + 1, t, k) - if s < k && !o[s] {
            items[order[s] as int].profit as int
        } else {
            0
        },
    decreases k,
{
    if k > 0 {
        lemma_z_step_s(items, order, o, s, t, k - 1);
        let x = k - 1;
        if x == s {
            assert(zin(o, s + 1, t, x));
            assert(zin(o, s, t, x) == o[s]);
        } else {
            assert(zin(o, s, t, x) == zin(o, s + 1, t, x));
        }
    }
}

/// With both walls at `b`, the selection is the greedy prefix.
pub proof fn lemma_z_start(items: Seq<KnapsackItem>, order: Seq<usize>, o: Seq<bool>, b: int, k: int)
    requires
        0 <= k,
        0 <= b,
    ensures
        zw(items, order, o, b, b, k) == order_weight(items, order, if k < b {
            k
        } else {
            b
        }),
        zp(items, order, o, b, b, k) == order_profit(items, order, if k < b {
            k
        } else {
            b
        }),
    decreases k,
{
    if k > 0 {
        lemma_z_start(items, order, o, b, k - 1);
    }
}

/// The selection weighs at most the greedy prefix `b` plus the whole of `o`.
pub proof fn lemma_z_cap(
    items: Seq<KnapsackItem>,
    order: Seq<usize>,
    o: Seq<bool>,
    s: int,
    t: int,
    b: int,
    k: int,
)
    requires
        0 <= s <= b,
        0 <= k,
        b <= order.len(),
        k <= order.len(),
    ensures
        zw(items, order, o, s, t, k) <= order_weight(items, order, if k < b {
            k
        } else {
            b
        }) + zw(items, order, o, 0, order.len() as int, k),
    decreases k,
{
    if k > 0 {
        lemma_z_cap(items, order, o, s, t, b, k - 1);
    }
}

/// Profits never exceed those of all the positions.
pub proof fn lemma_z_bounds(
    items: Seq<KnapsackItem>,
    order: Seq<usize>,
    o: Seq<bool>,
    s: int,
    t: int,
    k: int,
)
    requires
        0 <= k,
    ensures
        0 <= zp(items, order, o, s, t, k) <= order_profit(items, order, k),
        0 <= zw(items, order, o, s, t, k),
    decreases k,
{
    if k > 0 {
        lemma_z_bounds(items, order, o, s, t, k - 1);
    }
}

} // verus!
