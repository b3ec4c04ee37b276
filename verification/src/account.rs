use vstd::prelude::*;

verus! {

/// An opaque participant identity: an equality-comparable, copyable handle
/// designated by the host that dispatches calls. The core never inspects its
/// internal structure; it only compares identities for equality.
#[derive(Clone, Copy, PartialEq, Eq, Structural, Debug)]
pub struct AccountId(pub u64);

} // verus!
