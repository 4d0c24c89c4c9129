//! The `ahash` types that the library's maps are made of.
use vstd::prelude::*;

verus! {

/// `ahash::AHashMap`, a `HashMap` hashed with `ahash::RandomState`.
#[verifier::external_type_specification]
#[verifier::external_body]
#[verifier::reject_recursive_types(K)]
#[verifier::reject_recursive_types(V)]
#[verifier::reject_recursive_types(S)]
pub struct ExAHashMap<K, V, S>(ahash::AHashMap<K, V, S>);

/// `ahash::RandomState`, the hasher builder of an `AHashMap`.
#[verifier::external_type_specification]
#[verifier::external_body]
pub struct ExAHashRandomState(ahash::RandomState);

} // verus!
