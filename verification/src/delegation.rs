//! A capability that is resolved through two tables in a row.
use vstd::prelude::*;
use crate::component::{DelegateComponent, HasComponents};

verus! {

/// The text that [`DelegatedImpl`] answers with.
pub open spec fn delegated_text() -> Seq<char> {
    "delegated"@
}

/// Capability: answer with a fixed text.
pub trait CanDelegate {
    /// The text that the bound provider answers with for this context.
    spec fn delegate_answer(&self) -> Seq<char>;

    fn delegate(&self) -> (answer: &'static str)
        ensures
            answer@ == self.delegate_answer(),
    ;
}

/// Provider side of [`CanDelegate`].
pub trait Delegate<Context> {
    spec fn delegate_answer(context: &Context) -> Seq<char>;

    fn delegate(context: &Context) -> (answer: &'static str)
        ensures
            answer@ == Self::delegate_answer(context),
    ;
}

/// Name of the capability [`CanDelegate`] in a table.
pub struct DelegatedComponent;

impl<Context> CanDelegate for Context where
    Context: HasComponents,
    Context::Components: Delegate<Context>,
 {
    open spec fn delegate_answer(&self) -> Seq<char> {
        Context::Components::delegate_answer(self)
    }

    fn delegate(&self) -> (answer: &'static str) {
        Context::Components::delegate(self)
    }
}

impl<Component, Context> Delegate<Context> for Component where
    Component: DelegateComponent<DelegatedComponent>,
    Component::Delegate: Delegate<Context>,
 {
    open spec fn delegate_answer(context: &Context) -> Seq<char> {
        Component::Delegate::delegate_answer(context)
    }

    fn delegate(context: &Context) -> (answer: &'static str) {
        Component::Delegate::delegate(context)
    }
}

/// The context of the example.
pub struct DelegationUserStruct;

/// The table that the context names.
pub struct DelegatedComponents;

/// The table that the first one hands the capability on to.
pub struct DelegateeComponents;

/// The provider at the end of the chain.
pub struct DelegatedImpl;

impl HasComponents for DelegationUserStruct {
    type Components = DelegatedComponents;
}

impl DelegateComponent<DelegatedComponent> for DelegatedComponents {
    type Delegate = DelegateeComponents;
}

impl DelegateComponent<DelegatedComponent> for DelegateeComponents {
    type Delegate = DelegatedImpl;
}

impl<Context> Delegate<Context> for DelegatedImpl {
    open spec fn delegate_answer(context: &Context) -> Seq<char> {
        delegated_text()
    }

    fn delegate(context: &Context) -> (answer: &'static str)
        ensures
            answer@ == delegated_text(),
    {
        "delegated"
    }
}

/// A context answers with the provider that its table binds to
/// [`CanDelegate`], and with no other, however many tables lie between.
pub proof fn lemma_delegate_resolves<Context, Provider>(context: &Context) where
    Context: HasComponents,
    Context::Components: DelegateComponent<DelegatedComponent, Delegate = Provider>,
    Provider: Delegate<Context>,

    ensures
        context.delegate_answer() == Provider::delegate_answer(context),
{
}

/// Resolves [`CanDelegate`] for [`DelegationUserStruct`]: through
/// [`DelegatedComponents`] and [`DelegateeComponents`] to [`DelegatedImpl`].
pub fn delegate_example() -> (answer: &'static str)
    ensures
        answer@ == delegated_text(),
{
    let s = DelegationUserStruct;
    s.delegate()
}

} // verus!
