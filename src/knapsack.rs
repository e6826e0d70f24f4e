//! The input model, the solution type and the mathematical model of a selection.
use vstd::prelude::*;

pub mod bkt;
pub mod dp;
pub mod fptas;
pub mod laws;
pub mod exactness;
pub mod minknap;
pub mod model;
pub mod parse;
pub mod sol_tree;

use crate::knapsack::model::{prefix_profit, is_selection, sum_profit, sum_weight, best_value};

verus! {

/// One item: its weight and its profit.
#[derive(Clone, Copy, Debug, PartialEq, Eq)]
pub struct KnapsackItem {
    pub weight: u64,
    pub profit: u64,
}

impl KnapsackItem {
    pub fn new(weight: u64, value: u64) -> (r: Self)
        ensures
            r.weight == weight,
            r.profit == value,
    {
        KnapsackItem { weight, profit: value }
    }
}

/// A validated problem instance: the items in order, the capacity and the
/// granularity used by the approximation scheme.
#[derive(Clone, Debug)]
pub struct KnapsackInput {
    items: Vec<KnapsackItem>,
    capacity: u64,
    granularity: u32,
}

/// The outcome of a solver: the indices of the selected items, ascending, and
/// the total profit reported for them.
#[derive(Clone, Debug)]
pub struct KnapsackSolution {
    pub items: Vec<usize>,
    pub total_value: u64,
}

/// Why an input was rejected.
#[derive(Clone, Copy, Debug, PartialEq, Eq, Structural)]
pub enum KnapsackInputError {
    InvalidItemCount,
    MissingItemCount,
    InvalidCapacity,
    MissingCapacity,
    InvalidGranularity,
    InvalidItemWeight,
    InvalidItemValue,
    InvalidItemSpecification,
    InsufficientItems,
}

/// The solver kinds, used to label results.
#[derive(Clone, Copy, Debug, Hash, PartialEq, Eq, Structural)]
pub enum KnapsackMethod {
    Dp,
    Bkt,
    Fptas,
    MinKnap,
}

impl KnapsackMethod {
    /// The label of the method.
    pub fn as_str(&self) -> (r: &'static str)
        ensures
            *self == KnapsackMethod::Dp ==> r@ == "Dp"@,
            *self == KnapsackMethod::Bkt ==> r@ == "Bkt"@,
            *self == KnapsackMethod::Fptas ==> r@ == "Fptas"@,
            *self == KnapsackMethod::MinKnap ==> r@ == "MinKnap"@,
    {
        proof {
            reveal_strlit("Dp");
            reveal_strlit("Bkt");
            reveal_strlit("Fptas");
            reveal_strlit("MinKnap");
        }
        match self {
            KnapsackMethod::Dp => "Dp",
            KnapsackMethod::Bkt => "Bkt",
            KnapsackMethod::Fptas => "Fptas",
            KnapsackMethod::MinKnap => "MinKnap",
        }
    }
}

/// The operational surface shared by the solvers. Each solver states what its
/// result is in its own `solve`; `accepts` says which inputs fit in memory for it.
pub trait KnapsackSolver {
    spec fn accepts(&self, input: &KnapsackInput) -> bool;

    /// Decides `accepts`.
    fn accepts_input(&self, input: &KnapsackInput) -> (r: bool)
        ensures
            r == self.accepts(input),
    ;

    fn solve(&self, input: &KnapsackInput) -> KnapsackSolution
        requires
            self.accepts(input),
    ;

    fn method(&self) -> KnapsackMethod;
}

/// `sol` is a feasible selection for `input` whose reported value is its profit.
pub open spec fn is_sound_solution(input: &KnapsackInput, sol: &KnapsackSolution) -> bool {
    &&& is_selection(sol.items@, input.items_view().len() as int)
    &&& sum_weight(input.items_view(), sol.items@) <= input.capacity_view()
    &&& sum_profit(input.items_view(), sol.items@) == sol.total_value
}

/// The best total profit that any feasible selection of the input reaches.
pub open spec fn optimum(input: &KnapsackInput) -> int {
    best_value(input.items_view(), input.items_view().len() as int, input.capacity_view() as int)
}

impl KnapsackInput {
    pub closed spec fn items_view(&self) -> Seq<KnapsackItem> {
        self.items@
    }

    pub closed spec fn capacity_view(&self) -> u64 {
        self.capacity
    }

    pub closed spec fn granularity_view(&self) -> u32 {
        self.granularity
    }

    /// The invariant that construction establishes.
    pub open spec fn wf(&self) -> bool {
        self.capacity_view() >= 1 && self.granularity_view() >= 1
    }

    /// The sum of all profits.
    pub open spec fn total_profit(&self) -> int {
        prefix_profit(self.items_view(), self.items_view().len() as int)
    }

    fn validate_capacity(capacity: u64) -> (r: Result<(), KnapsackInputError>)
        ensures
            r is Ok <==> capacity != 0,
            r is Err ==> r == Err::<(), _>(KnapsackInputError::InvalidCapacity),
    {
        if capacity == 0 {
            return Err(KnapsackInputError::InvalidCapacity);
        }
        Ok(())
    }

    fn validate_granularity(granularity: u32) -> (r: Result<(), KnapsackInputError>)
        ensures
            r is Ok <==> granularity != 0,
            r is Err ==> r == Err::<(), _>(KnapsackInputError::InvalidGranularity),
    {
        if granularity == 0 {
            return Err(KnapsackInputError::InvalidGranularity);
        }
        Ok(())
    }

    /// Builds an input, rejecting a zero capacity first, then a zero granularity.
    pub fn new(items: Vec<KnapsackItem>, capacity: u64, granularity: u32) -> (r: Result<
        Self,
        KnapsackInputError,
    >)
        ensures
            capacity == 0 ==> r == Err::<Self, _>(KnapsackInputError::InvalidCapacity),
            capacity != 0 && granularity == 0 ==> r == Err::<Self, _>(
                KnapsackInputError::InvalidGranularity,
            ),
            capacity != 0 && granularity != 0 ==> r is Ok,
            r matches Ok(input) ==> {
                &&& input.items_view() == items@
                &&& input.capacity_view() == capacity
                &&& input.granularity_view() == granularity
                &&& input.wf()
            },
    {
        match Self::validate_capacity(capacity) {
            Ok(()) => {},
            Err(e) => return Err(e),
        }
        match Self::validate_granularity(granularity) {
            Ok(()) => {},
            Err(e) => return Err(e),
        }
        Ok(KnapsackInput { items, capacity, granularity })
    }

    /// Replaces the granularity; a zero granularity is rejected and changes nothing.
    pub fn set_granularity(&mut self, granularity: u32) -> (r: Result<(), KnapsackInputError>)
        ensures
            granularity == 0 <==> r == Err::<(), _>(KnapsackInputError::InvalidGranularity),
            granularity != 0 <==> r is Ok,
            final(self).items_view() == old(self).items_view(),
            final(self).capacity_view() == old(self).capacity_view(),
            final(self).granularity_view() == if granularity == 0 {
                old(self).granularity_view()
            } else {
                granularity
            },
            old(self).wf() ==> final(self).wf(),
    {
        if granularity == 0 {
            return Err(KnapsackInputError::InvalidGranularity);
        }
        self.granularity = granularity;
        Ok(())
    }

    pub fn items(&self) -> (r: &Vec<KnapsackItem>)
        ensures
            r@ == self.items_view(),
    {
        &self.items
    }

    pub fn capacity(&self) -> (r: u64)
        ensures
            r == self.capacity_view(),
    {
        self.capacity
    }

    pub fn granularity(&self) -> (r: u32)
        ensures
            r == self.granularity_view(),
    {
        self.granularity
    }

    /// The largest item weight.
    pub fn max_cost(&self) -> (r: u64)
        requires
            self.items_view().len() > 0,
        ensures
            exists|k: int| 0 <= k < self.items_view().len() && r == self.items_view()[k].weight,
            forall|k: int| 0 <= k < self.items_view().len() ==> self.items_view()[k].weight <= r,
    {
        let mut best: u64 = self.items[0].weight;
        let mut i: usize = 1;
        while i < self.items.len()
            invariant
                1 <= i <= self.items@.len(),
                exists|k: int| 0 <= k < i && best == self.items@[k].weight,
                forall|k: int| 0 <= k < i ==> self.items@[k].weight <= best,
            decreases self.items@.len() - i,
        {
            if self.items[i].weight > best {
                best = self.items[i].weight;
            }
            i += 1;
        }
        best
    }

    /// The sum of all item profits, if it fits in a `u64`.
    pub fn checked_total_profit(&self) -> (r: Option<u64>)
        ensures
            self.total_profit() >= 0,
            r == if self.total_profit() <= u64::MAX {
                Some(self.total_profit() as u64)
            } else {
                None::<u64>
            },
    {
        crate::knapsack::model::checked_profit_sum(&self.items)
    }

    /// The sum of all item profits.
    pub fn max_item_profit(&self) -> (r: u64)
        requires
            self.total_profit() <= u64::MAX,
        ensures
            r == self.total_profit(),
    {
        let mut total: u64 = 0;
        let mut i: usize = 0;
        while i < self.items.len()
            invariant
                0 <= i <= self.items@.len(),
                total == prefix_profit(self.items@, i as int),
                prefix_profit(self.items@, self.items@.len() as int) <= u64::MAX,
            decreases self.items@.len() - i,
        {
            proof {
                crate::knapsack::model::lemma_prefix_profit_monotone(
                    self.items@,
                    i as int + 1,
                    self.items@.len() as int,
                );
            }
            total = total + self.items[i].profit;
            i += 1;
        }
        total
    }
}

} // verus!
