//! The registry: which provider serves which capability for a context.
//!
//! Both traits are type-level maps without run-time content. A context names
//! its table of bindings through [`HasComponents`]; a table binds a capability,
//! identified by a name type, to a provider through [`DelegateComponent`].
//! The compiler resolves every lookup, so a missing or a doubled binding is a
//! build error and never a run-time condition.
use vstd::prelude::*;

verus! {

/// A context that has a table of bindings.
pub trait HasComponents {
    /// The table that is consulted for every capability of the context.
    type Components;
}

/// One entry of a table: the capability `Name` is served by `Delegate`.
pub trait DelegateComponent<Name> {
    /// The provider, or a further table that is consulted in turn.
    type Delegate;
}

} // verus!
