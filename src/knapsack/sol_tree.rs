//! Bit-packed fragments of decisions, chained through an append-only store.
use vstd::prelude::*;

verus! {

/// Bit `k` of a fragment's value: the decision taken `k` steps before the latest.
pub open spec fn decision_at(value: u64, k: u64) -> bool {
    (value >> k) & 1u64 == 1u64
}

/// Up to 64 decisions, the newest at bit 0, and the store index of the
/// fragment that holds the decisions before them.
#[derive(Clone, Copy)]
pub struct SolutionFragment {
    pub value: u64,
    pub previous_idx: Option<usize>,
}

impl SolutionFragment {
    pub fn default() -> (r: Self)
        ensures
            r.value == 0,
            r.previous_idx is None,
    {
        SolutionFragment { value: 0, previous_idx: None }
    }

    pub fn new(previous_idx: Option<usize>) -> (r: Self)
        ensures
            r.value == 0,
            r.previous_idx == previous_idx,
    {
        SolutionFragment { value: 0, previous_idx }
    }

    /// Shifts the decisions one place up and records `decision` at bit 0.
    pub fn add_decision(&mut self, decision: bool)
        ensures
            final(self).value == ((old(self).value << 1u64) | (if decision {
                1u64
            } else {
                0u64
            })),
            decision_at(final(self).value, 0) == decision,
            forall|k: u64|
                1 <= k < 64 ==> decision_at(final(self).value, k) == decision_at(
                    old(self).value,
                    (k - 1) as u64,
                ),
            final(self).previous_idx == old(self).previous_idx,
    {
        let old_value = self.value;
        let bit: u64 = if decision {
            1
        } else {
            0
        };
        let v = (old_value << 1u64) | bit;
        assert(((v >> 0u64) & 1u64 == 1u64) == (bit == 1u64)) by (bit_vector)
            requires
                v == (old_value << 1u64) | bit,
                bit == 0u64 || bit == 1u64,
        ;
        assert forall|k: u64| 1 <= k < 64 implies ((v >> k) & 1u64 == 1u64) == ((old_value >> ((
        k - 1) as u64)) & 1u64 == 1u64) by {
            assert(((v >> k) & 1u64 == 1u64) == ((old_value >> ((k - 1) as u64)) & 1u64 == 1u64))
                by (bit_vector)
                requires
                    v == (old_value << 1u64) | bit,
                    bit == 0u64 || bit == 1u64,
                    1 <= k < 64,
            ;
        }
        self.value = v;
    }

    /// The decision taken `idx` steps before the latest one.
    pub fn get_decision(&self, idx: usize) -> (r: bool)
        requires
            idx < 64,
        ensures
            r == decision_at(self.value, idx as u64),
    {
        (self.value >> idx as u64) & 1 == 1
    }

    pub fn update_previous_idx(&mut self, previous_idx: Option<usize>)
        ensures
            final(self).previous_idx == previous_idx,
            final(self).value == old(self).value,
    {
        self.previous_idx = previous_idx;
    }

    /// Forgets the decisions, keeping the link to the previous fragment.
    pub fn clear_value(&mut self)
        ensures
            final(self).value == 0,
            final(self).previous_idx == old(self).previous_idx,
    {
        self.value = 0;
    }

    pub fn get_previous_idx(&self) -> (r: Option<usize>)
        ensures
            r == self.previous_idx,
    {
        self.previous_idx
    }
}

/// Append-only store of fragments; an index, once handed out, stays valid.
pub struct SolutionTree {
    fragments: Vec<SolutionFragment>,
}

impl View for SolutionTree {
    type V = Seq<SolutionFragment>;

    closed spec fn view(&self) -> Seq<SolutionFragment> {
        self.fragments@
    }
}

impl SolutionTree {
    pub fn new() -> (r: Self)
        ensures
            r@.len() == 0,
    {
        SolutionTree { fragments: Vec::new() }
    }

    /// Appends a fragment and returns its index.
    pub fn push_fragment(&mut self, fragment: SolutionFragment) -> (r: usize)
        ensures
            r == old(self)@.len(),
            final(self)@ == old(self)@.push(fragment),
    {
        let idx = self.fragments.len();
        self.fragments.push(fragment);
        idx
    }

    /// The fragment at `idx`, if there is one.
    pub fn get_fragment(&self, idx: usize) -> (r: Option<&SolutionFragment>)
        ensures
            idx < self@.len() ==> (r matches Some(f) && *f == self@[idx as int]),
            idx >= self@.len() ==> r is None,
    {
        if idx < self.fragments.len() {
            Some(&self.fragments[idx])
        } else {
            None
        }
    }

    pub fn len(&self) -> (r: usize)
        ensures
            r == self@.len(),
    {
        self.fragments.len()
    }
}

} // verus!
