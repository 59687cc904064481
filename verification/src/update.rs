//! The orchestrator's decision: compute the merged text and whether the
//! target file must be rewritten.

use crate::merge::merge;
use crate::merge::merge_spec;
use crate::text::str_eq;
use crate::text::views_of;
use vstd::prelude::*;

verus! {

/// The outcome of planning an update: the canonical new text, and whether it
/// differs from what the file already holds.
pub struct UpdatePlan {
    pub new_text: String,
    pub changed: bool,
}

/// Decide what an update does. The new text is the merge of the existing text
/// with the new patterns, and a write is needed exactly when that text
/// differs from the existing one; equal text means the file is left alone.
pub fn plan_update(existing: &str, args: &Vec<String>) -> (r: UpdatePlan)
    ensures
        r.new_text@ == merge_spec(existing@, views_of(args@)),
        r.changed == (r.new_text@ != existing@),
{
    let new_text = merge(existing, args);
    let changed = !str_eq(new_text.as_str(), existing);
    UpdatePlan { new_text, changed }
}

} // verus!
