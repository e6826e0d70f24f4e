//! Dynamic programming over the profit axis.
use vstd::prelude::*;

use ndarray::Array2;

use crate::knapsack::model::{
    is_selection, lemma_least_weight_bound, lemma_min_weight_bounds, lemma_min_weight_optimum,
    lemma_prefix_profit_monotone, least_weight, min_weight, prefix_profit, sum_profit, sum_weight,
    NO_SELECTION,
};
use crate::knapsack::{
    optimum, KnapsackInput, KnapsackItem, KnapsackMethod, KnapsackSolution, KnapsackSolver,
};

verus! {

/// Exact solver over the profit axis: for each exact profit it keeps the
/// least weight (`NO_SELECTION` when no selection has that profit) and reports
/// the largest profit whose least weight fits. It computes the optimum value
/// only.
pub struct DpSolver;

pub(crate) proof fn lemma_min_weight_zero(items: Seq<KnapsackItem>, i: int, cap: int)
    requires
        cap >= 0,
    ensures
        min_weight(items, i, 0, cap) == 0,
    decreases i,
{
    if i > 0 {
        lemma_min_weight_zero(items, i - 1, cap);
        lemma_min_weight_bounds(items, i, 0, cap);
    }
}

/// Sums the profits of all items.
pub(crate) fn total_profit_of(items: &Vec<KnapsackItem>) -> (r: usize)
    requires
        prefix_profit(items@, items@.len() as int) < usize::MAX,
    ensures
        r == prefix_profit(items@, items@.len() as int),
{
    let mut total: usize = 0;
    let mut i: usize = 0;
    while i < items.len()
        invariant
            0 <= i <= items@.len(),
            total == prefix_profit(items@, i as int),
            prefix_profit(items@, items@.len() as int) < usize::MAX,
        decreases items@.len() - i,
    {
        proof {
            lemma_prefix_profit_monotone(items@, i as int + 1, items@.len() as int);
        }
        total = total + items[i].profit as usize;
        i += 1;
    }
    total
}

/// Replaces row `i` of the profit-indexed table by row `i + 1`, sweeping the
/// profits downwards so that each entry still reads the previous row.
fn relax_item(tab: &mut Vec<u128>, items: &Vec<KnapsackItem>, i: usize, total: usize)
    requires
        i < items@.len(),
        total < usize::MAX,
        old(tab)@.len() == total + 1,
        forall|q: int|
            0 <= q <= total ==> old(tab)@[q] == least_weight(items@, i as int, q),
    ensures
        final(tab)@.len() == total + 1,
        forall|q: int|
            0 <= q <= total ==> final(tab)@[q] == least_weight(items@, i as int + 1, q),
{
    let none: u128 = NO_SELECTION;
    let n: usize = items.len();
    let pi: u64 = items[i].profit;
    let wi: u128 = items[i].weight as u128;
    let mut p: usize = total + 1;
    while p as u64 > pi && p > 0
        invariant
            0 <= p <= total + 1,
            tab@.len() == total + 1,
            i < items@.len(),
            pi == items@[i as int].profit,
            wi == items@[i as int].weight,
            none == NO_SELECTION,
            n == items@.len(),
            forall|q: int|
                p <= q <= total ==> tab@[q] == least_weight(items@, i as int + 1, q),
            forall|q: int| 0 <= q < p ==> tab@[q] == least_weight(items@, i as int, q),
        decreases p,
    {
        p -= 1;
        let from: usize = p - pi as usize;
        proof {
            lemma_least_weight_bound(items@, i as int, from as int);
            lemma_least_weight_bound(items@, i as int, p as int);
            lemma_least_weight_bound(items@, i as int + 1, p as int);
        }
        let prev: u128 = tab[from];
        let take: u128 = if prev == none {
            none
        } else {
            prev + wi
        };
        if take < tab[p] {
            tab.set(p, take);
        }
    }
    assert forall|q: int| 0 <= q <= total implies tab@[q] == least_weight(items@, i as int + 1, q) by {
        if q < p {
            assert(q < pi);
        }
    }
}

/// The least weight of each exact profit over all items.
fn profit_table(items: &Vec<KnapsackItem>, total: usize) -> (tab: Vec<u128>)
    requires
        total == prefix_profit(items@, items@.len() as int),
        total < usize::MAX,
    ensures
        tab@.len() == total + 1,
        forall|q: int|
            0 <= q <= total ==> tab@[q] == least_weight(items@, items@.len() as int, q),
{
    let none: u128 = NO_SELECTION;
    let mut tab: Vec<u128> = Vec::new();
    tab.push(0);
    while tab.len() <= total
        invariant
            1 <= tab@.len() <= total + 1,
            none == NO_SELECTION,
            forall|q: int| 0 <= q < tab@.len() ==> tab@[q] == least_weight(items@, 0, q),
        decreases total + 1 - tab@.len(),
    {
        tab.push(none);
    }
    let mut i: usize = 0;
    while i < items.len()
        invariant
            0 <= i <= items@.len(),
            total < usize::MAX,
            tab@.len() == total + 1,
            forall|q: int|
                0 <= q <= total ==> tab@[q] == least_weight(items@, i as int, q),
        decreases items@.len() - i,
    {
        relax_item(&mut tab, items, i, total);
        i += 1;
    }
    tab
}

impl DpSolver {
    /// The optimum value of the input.
    fn optimum_value(input: &KnapsackInput) -> (r: u64)
        requires
            input.total_profit() < usize::MAX,
        ensures
            r == optimum(input),
    {
        let items = input.items();
        let cap = input.capacity();
        let n: usize = items.len();
        let total = total_profit_of(items);
        let tab = profit_table(items, total);
        proof {
            lemma_min_weight_zero(items@, items@.len() as int, NO_SELECTION as int - 1);
        }
        let mut v: usize = total;
        while tab[v] > cap as u128
            invariant
                0 <= v <= total,
                tab@.len() == total + 1,
                tab@[0] == 0,
                forall|q: int| v < q <= total ==> tab@[q] > cap,
                total == prefix_profit(items@, items@.len() as int),
                forall|q: int|
                    0 <= q <= total ==> tab@[q] == least_weight(items@, items@.len() as int, q),
            decreases v,
        {
            v -= 1;
        }
        proof {
            assert(items@.len() == n);
            assert forall|q: int| v < q <= total implies least_weight(items@, items@.len() as int, q) > cap by {
                assert(tab@[q] > cap);
            }
            assert forall|q: int| v < q <= total implies #[trigger] min_weight(items@, items@.len() as int, q, NO_SELECTION as int - 1) > cap by {
                assert(least_weight(items@, items@.len() as int, q) > cap);
            }
            lemma_min_weight_optimum(items@, v as int, NO_SELECTION as int - 1, cap as int);
        }
        v as u64
    }
}

impl KnapsackSolver for DpSolver {
    open spec fn accepts(&self, input: &KnapsackInput) -> bool {
        input.total_profit() < usize::MAX
    }

    fn accepts_input(&self, input: &KnapsackInput) -> (r: bool) {
        match input.checked_total_profit() {
            Some(t) => (t as u128) < (usize::MAX as u128),
            None => false,
        }
    }

    /// The optimum value; no witness selection is produced.
    fn solve(&self, input: &KnapsackInput) -> (r: KnapsackSolution)
        ensures
            r.total_value == optimum(input),
            r.items@.len() == 0,
    {
        KnapsackSolution { items: Vec::new(), total_value: DpSolver::optimum_value(input) }
    }

    fn method(&self) -> (r: KnapsackMethod)
        ensures
            r == KnapsackMethod::Dp,
    {
        KnapsackMethod::Dp
    }
}

/// A two-dimensional table of least weights, one row per prefix of the items
/// and one column per exact profit. It holds an `ndarray` array, which Verus
/// cannot declare (its storage parameter is bound by the crate's own traits).
#[verifier::external_body]
pub struct ProfitTable {
    cells: Array2<u128>,
}

/// The cells of a table, row by row.
pub uninterp spec fn table_cells(t: ProfitTable) -> Seq<Seq<u128>>;

/// Relies on `Array2::zeros`: a `rows` by `cols` array of zeros; it panics
/// only when a length or the number of cells overflows `isize`.
#[verifier::external_body]
fn zeros_table(rows: usize, cols: usize) -> (r: ProfitTable)
    requires
        rows <= isize::MAX,
        cols <= isize::MAX,
        rows * cols <= isize::MAX,
    ensures
        table_cells(r) == Seq::new(rows as nat, |i: int| Seq::new(cols as nat, |j: int| 0u128)),
{
    ProfitTable { cells: Array2::zeros((rows, cols)) }
}

/// Relies on indexing an `ndarray` array by `(row, column)`; it panics only
/// out of bounds.
#[verifier::external_body]
pub(crate) fn table_get(t: &ProfitTable, row: usize, col: usize) -> (r: u128)
    requires
        row < table_cells(*t).len(),
        col < table_cells(*t)[row as int].len(),
    ensures
        r == table_cells(*t)[row as int][col as int],
{
    t.cells[(row, col)]
}

/// Relies on mutable indexing of an `ndarray` array by `(row, column)`; it
/// panics only out of bounds.
#[verifier::external_body]
fn table_set(t: &mut ProfitTable, row: usize, col: usize, value: u128)
    requires
        row < table_cells(*old(t)).len(),
        col < table_cells(*old(t))[row as int].len(),
    ensures
        table_cells(*final(t)) == table_cells(*old(t)).update(
            row as int,
            table_cells(*old(t))[row as int].update(col as int, value),
        ),
{
    t.cells[(row, col)] = value;
}

/// Rows `0..=i` of the table hold, for each exact profit `q`, the least
/// weight of a selection of the first `r` items (`NO_SELECTION` if none).
pub open spec fn rows_filled(
    cells: Seq<Seq<u128>>,
    items: Seq<KnapsackItem>,
    i: int,
    total: int,
) -> bool {
    &&& cells.len() == items.len() + 1
    &&& forall|r: int| 0 <= r < cells.len() ==> #[trigger] cells[r].len() == total + 1
    &&& forall|r: int, q: int|
        0 <= r <= i && 0 <= q <= total ==> #[trigger] cells[r][q] == least_weight(items, r, q)
}

proof fn lemma_sum_prepend(items: Seq<KnapsackItem>, sel: Seq<usize>, x: usize)
    ensures
        sum_weight(items, seq![x] + sel) == items[x as int].weight + sum_weight(items, sel),
        sum_profit(items, seq![x] + sel) == items[x as int].profit + sum_profit(items, sel),
    decreases sel.len(),
{
    if sel.len() > 0 {
        assert((seq![x] + sel).drop_last() =~= seq![x] + sel.drop_last());
        assert((seq![x] + sel).last() == sel.last());
        lemma_sum_prepend(items, sel.drop_last(), x);
    } else {
        assert((seq![x] + sel).drop_last() =~= Seq::<usize>::empty());
        assert((seq![x] + sel).last() == x);
        assert(sel =~= Seq::<usize>::empty());
    }
}

impl DpSolver {
    /// The full table: row `r`, column `q` holds the least weight of a
    /// selection of the first `r` items with profit exactly `q`, or
    /// `NO_SELECTION` when there is none.
    pub(crate) fn gen_table(items: &Vec<KnapsackItem>, total: usize) -> (r: ProfitTable)
        requires
            total < usize::MAX,
            (items@.len() + 1) * (total + 1) <= isize::MAX,
        ensures
            rows_filled(table_cells(r), items@, items@.len() as int, total as int),
    {
        let n: usize = items.len();
        let none: u128 = NO_SELECTION;
        assert((n + 1) <= (n + 1) * (total + 1)) by (nonlinear_arith);
        assert((total + 1) <= (n + 1) * (total + 1)) by (nonlinear_arith);
        let mut table = zeros_table(n + 1, total + 1);
        let mut q: usize = 1;
        while q <= total
            invariant
                1 <= q <= total + 1,
                total < usize::MAX,
                none == NO_SELECTION,
                table_cells(table).len() == n + 1,
                n == items@.len(),
                forall|r: int| 0 <= r <= n ==> #[trigger] table_cells(table)[r].len() == total + 1,
                table_cells(table)[0][0] == 0,
                forall|j: int| 1 <= j < q ==> #[trigger] table_cells(table)[0][j] == none,
            decreases total + 1 - q,
        {
            table_set(&mut table, 0, q, none);
            q += 1;
        }
        let mut i: usize = 0;
        while i < n
            invariant
                0 <= i <= n,
                n == items@.len(),
                total < usize::MAX,
                none == NO_SELECTION,
                rows_filled(table_cells(table), items@, i as int, total as int),
            decreases n - i,
        {
            let pi: u64 = items[i].profit;
            let wi: u128 = items[i].weight as u128;
            let mut q: usize = 0;
            while q <= total
                invariant
                    0 <= q <= total + 1,
                    0 <= i < n,
                    n == items@.len(),
                    total < usize::MAX,
                    none == NO_SELECTION,
                    pi == items@[i as int].profit,
                    wi == items@[i as int].weight,
                    rows_filled(table_cells(table), items@, i as int, total as int),
                    forall|j: int|
                        0 <= j < q ==> #[trigger] table_cells(table)[i + 1][j] == least_weight(items@, i + 1, j),
                decreases total + 1 - q,
            {
                proof {
                    lemma_least_weight_bound(items@, i as int, q as int);
                    lemma_least_weight_bound(items@, i as int + 1, q as int);
                }
                let mut v: u128 = table_get(&table, i, q);
                if q as u64 >= pi {
                    let from: usize = q - pi as usize;
                    proof {
                        lemma_least_weight_bound(items@, i as int, from as int);
                    }
                    let prev: u128 = table_get(&table, i, from);
                    let take: u128 = if prev == none {
                        none
                    } else {
                        prev + wi
                    };
                    if take < v {
                        v = take;
                    }
                }
                table_set(&mut table, i + 1, q, v);
                q += 1;
            }
            i += 1;
        }
        table
    }

    /// Walks the table back from profit `v` over all items and returns, in
    /// ascending order, a selection with profit `v` and the least weight.
    pub(crate) fn gen_path(table: &ProfitTable, items: &Vec<KnapsackItem>, total: usize, v: usize, cap: u64) -> (r: Vec<usize>)
        requires
            rows_filled(table_cells(*table), items@, items@.len() as int, total as int),
            v <= total,
            least_weight(items@, items@.len() as int, v as int) <= cap,
        ensures
            is_selection(r@, items@.len() as int),
            sum_profit(items@, r@) == v,
            sum_weight(items@, r@) == least_weight(items@, items@.len() as int, v as int),
    {
        let n: usize = items.len();
        let mut path: Vec<usize> = Vec::new();
        let mut profit: usize = v;
        let mut i: usize = n;
        while i > 0
            invariant
                0 <= i <= n,
                n == items@.len(),
                0 <= profit <= v <= total,
                rows_filled(table_cells(*table), items@, n as int, total as int),
                least_weight(items@, i as int, profit as int) <= cap,
                forall|k: int| 0 <= k < path@.len() ==> i <= #[trigger] path@[k] < n,
                forall|a: int, b: int| 0 <= a < b < path@.len() ==> path@[a] < path@[b],
                sum_profit(items@, path@) + profit == v,
                sum_weight(items@, path@) + least_weight(items@, i as int, profit as int)
                    == least_weight(items@, n as int, v as int),
            decreases i,
        {
            proof {
                lemma_least_weight_bound(items@, i as int - 1, profit as int);
                if profit >= items@[i - 1].profit {
                    lemma_least_weight_bound(items@, i as int - 1, profit - items@[i - 1].profit);
                }
            }
            if table_get(table, i, profit) != table_get(table, i - 1, profit) {
                let ghost old_path = path@;
                path.insert(0, i - 1);
                proof {
                    assert(path@ =~= seq![(i - 1) as usize] + old_path);
                    lemma_sum_prepend(items@, old_path, (i - 1) as usize);
                }
                profit = profit - items[i - 1].profit as usize;
            }
            i -= 1;
        }
        path
    }
}

} // verus!
