//! Declarations of the types of other crates that this library hands through.

use vstd::prelude::*;

verus! {

/// `toml::Value`: a value of a TOML document, as the `toml` crate holds it.
/// Nothing is known here of what such a value holds.
#[verifier::external_type_specification]
#[verifier::external_body]
pub struct ExTomlValue(toml::Value);

} // verus!
