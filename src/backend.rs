use vstd::prelude::*;

verus! {

/// Declares `notify::Error`, the watcher backend's error type, as an opaque
/// type. Nothing is assumed of its values: they are only buffered and handed
/// on to the consumer unchanged.
#[verifier::external_type_specification]
#[verifier::external_body]
pub struct ExError(notify::Error);

} // verus!
