//! Solvers for the 0/1 knapsack problem, with their contracts proved by Verus.
use vstd::prelude::*;

pub mod knapsack;

pub use knapsack::bkt::BktSolver;
pub use knapsack::dp::DpSolver;
pub use knapsack::fptas::FptasDpSolver;
pub use knapsack::minknap::MinKnapSolver;
pub use knapsack::{
    KnapsackInput, KnapsackInputError, KnapsackItem, KnapsackMethod, KnapsackSolution,
    KnapsackSolver,
};

verus! {

} // verus!
