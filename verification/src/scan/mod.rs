//! Planner side of the extension: which scans and aggregates are replaced by
//! the extension's own nodes, and how those nodes are described to the executor.

pub mod agg_laws;
pub mod agg_plan;
pub mod agg_types;
pub mod answer_laws;
pub mod catalog;
pub mod chain_laws;
pub mod exprs;
pub mod group_estimate;
pub mod having;
pub mod hook;
pub mod json_extract;
pub mod json_laws;
pub mod json_plan;
pub mod json_prune;
pub mod json_tlist;
pub mod meta_laws;
pub mod minmax;
pub mod node;
pub mod path;
pub mod plan_laws;
pub mod plan_profile;
pub mod prune_laws;
pub mod pushdown;
pub mod quals;
pub mod query_laws;
pub mod source_laws;
pub mod time_bounds;
pub mod topn_laws;
pub mod tuple_laws;
pub mod upper;
pub mod upper_path;
pub mod where_laws;
pub mod wire;
pub mod wire_decode;

use vstd::prelude::*;
use crate::scan::hook::HookState;

verus! {

/// Forgets all catalog lookups of a session.
pub fn invalidate_compressed_cache(state: &mut HookState)
    ensures
        final(state).companions@ == Map::<u32, u32>::empty(),
        final(state).time_columns@ == Map::<u32, i16>::empty(),
        final(state).meta_cols@ == Map::<u32, (String, Vec<String>)>::empty(),
        final(state).dml_bypass == old(state).dml_bypass,
{
    hook::invalidate_compressed_cache(state);
}

} // verus!
