//! Case conversion of specification titles: a trusted binding to `heck`.
use vstd::prelude::*;

verus! {

/// `heck::ToSnakeCase::to_snake_case` of `s`.
pub uninterp spec fn snake_case(s: Seq<char>) -> Seq<char>;

/// Calls `heck::ToSnakeCase::to_snake_case`; the contract claims only that
/// the result is [`snake_case`] of the argument.
#[verifier::external_body]
pub(crate) fn to_snake_case(s: &str) -> (r: String)
    ensures
        r@ == snake_case(s@),
{
    heck::ToSnakeCase::to_snake_case(s)
}

} // verus!
