use vstd::prelude::*;

verus! {

/// The guard of tokio's owned mutex, `tokio::sync::OwnedMutexGuard`. Nothing is
/// claimed of it. Whoever removes layers from a timeline must hold that
/// timeline's removal lock, which compaction and garbage collection share; the
/// operations that remove layers take the guard as the evidence of it.
#[verifier::external_type_specification]
#[verifier::external_body]
#[verifier::reject_recursive_types(T)]
pub struct ExOwnedMutexGuard<T: ?Sized>(tokio::sync::OwnedMutexGuard<T>);

} // verus!
