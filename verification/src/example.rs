//! A capability with a precondition on the context and a parameter of its
//! own: both carry over to the provider side.
use vstd::prelude::*;
use crate::component::{DelegateComponent, HasComponents};

verus! {

/// What a context must be before it can have [`ExampleInterface`].
pub trait Supertrait {

}

/// Capability with one more type parameter. The context comes first on the
/// provider side, the parameter after it.
pub trait ExampleInterface<AdditionalBound>: Supertrait {
    /// What the bound provider answers for this context and `name`.
    spec fn example_holds_item(&self, name: Seq<char>) -> bool;

    fn has_item(&self, item: String) -> (found: bool)
        ensures
            found == self.example_holds_item(item@),
    ;
}

/// Provider side of [`ExampleInterface`].
pub trait ExampleDelegatee<Context, AdditionalBound> where Context: Supertrait {
    spec fn example_holds_item(context: &Context, name: Seq<char>) -> bool;

    fn has_item(context: &Context, item: String) -> (found: bool)
        ensures
            found == Self::example_holds_item(context, item@),
    ;
}

/// Name of the capability [`ExampleInterface`] in a table.
pub struct ExampleComponent;

impl<Context, AdditionalBound> ExampleInterface<AdditionalBound> for Context where
    Context: Supertrait + HasComponents,
    Context::Components: ExampleDelegatee<Context, AdditionalBound>,
 {
    open spec fn example_holds_item(&self, name: Seq<char>) -> bool {
        Context::Components::example_holds_item(self, name)
    }

    fn has_item(&self, item: String) -> (found: bool) {
        Context::Components::has_item(self, item)
    }
}

impl<Component, Context, AdditionalBound> ExampleDelegatee<Context, AdditionalBound> for Component where
    Context: Supertrait,
    Component: DelegateComponent<ExampleComponent>,
    Component::Delegate: ExampleDelegatee<Context, AdditionalBound>,
 {
    open spec fn example_holds_item(context: &Context, name: Seq<char>) -> bool {
        Component::Delegate::example_holds_item(context, name)
    }

    fn has_item(context: &Context, item: String) -> (found: bool) {
        Component::Delegate::has_item(context, item)
    }
}

/// A context answers with the provider that its table binds to
/// [`ExampleInterface`], and with no other.
pub proof fn lemma_example_resolves<Context, AdditionalBound, Provider>(
    context: &Context,
    name: Seq<char>,
) where
    Context: Supertrait + HasComponents,
    Context::Components: DelegateComponent<ExampleComponent, Delegate = Provider>,
    Provider: ExampleDelegatee<Context, AdditionalBound>,

    ensures
        <Context as ExampleInterface<AdditionalBound>>::example_holds_item(context, name)
            == Provider::example_holds_item(context, name),
{
}

} // verus!
