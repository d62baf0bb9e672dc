//! Tuning constants of the layered graph.
use vstd::prelude::*;

verus! {

/// The largest number of neighbours a node keeps in one layer.
pub open spec fn spec_m_max() -> usize {
    30
}

/// The number of neighbours a new node is linked to in one layer.
pub open spec fn spec_m() -> usize {
    30
}

/// The breadth of the candidate list while a layer is searched.
pub open spec fn spec_ef_construction() -> usize {
    100
}

/// The number of results a search returns when the caller names none.
pub open spec fn spec_k_neighbours() -> usize {
    10
}

#[verifier::when_used_as_spec(spec_m_max)]
pub fn m_max() -> (r: usize)
    ensures
        r == 30,
        r == spec_m_max(),
{
    30
}

#[verifier::when_used_as_spec(spec_m)]
pub fn m() -> (r: usize)
    ensures
        r == 30,
        r == spec_m(),
{
    30
}

#[verifier::when_used_as_spec(spec_ef_construction)]
pub fn ef_construction() -> (r: usize)
    ensures
        r == 100,
        r == spec_ef_construction(),
{
    100
}

#[verifier::when_used_as_spec(spec_k_neighbours)]
pub fn k_neighbours() -> (r: usize)
    ensures
        r == 10,
        r == spec_k_neighbours(),
{
    10
}

} // verus!
