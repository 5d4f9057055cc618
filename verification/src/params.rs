//! Defaults of the request parameters.
use vstd::prelude::*;
use crate::text::owned;

verus! {

/// The default output format of a search: `markdown`.
pub fn default_markdown() -> (r: String)
    ensures
        r@ == "markdown"@,
{
    owned("markdown")
}

/// The default neighbour expansion depth of a search: one step.
pub fn default_depth() -> (r: usize)
    ensures
        r == 1,
{
    1
}

/// The default direction of a tree: `up`, towards the antecedents.
pub fn default_up() -> (r: String)
    ensures
        r@ == "up"@,
{
    owned("up")
}

} // verus!
