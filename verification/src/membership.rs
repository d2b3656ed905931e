//! The capability to tell whether a context holds an item of a given name,
//! and the provider that answers by looking through all the items.
use vstd::prelude::*;
use crate::component::{DelegateComponent, HasComponents};
use crate::entity::HasName;
use crate::items::CanGetDb;
use crate::text::same_text;

verus! {

/// Some item of `items` has exactly the name `name`.
pub open spec fn names_one_of<T: HasName>(items: Seq<T>, name: Seq<char>) -> bool {
    exists|i: int| 0 <= i < items.len() && (#[trigger] items[i]).name_text() == name
}

/// Capability: tell whether the context holds an item of a given name.
pub trait HasItem {
    /// What the bound provider answers for this context and `name`.
    spec fn holds_item(&self, name: Seq<char>) -> bool;

    fn has_item(&self, item: String) -> (found: bool)
        ensures
            found == self.holds_item(item@),
    ;
}

/// Provider side of [`HasItem`].
pub trait ItemChecker<Context> {
    spec fn holds_item(context: &Context, name: Seq<char>) -> bool;

    fn has_item(context: &Context, item: String) -> (found: bool)
        ensures
            found == Self::holds_item(context, item@),
    ;
}

/// Name of the capability [`HasItem`] in a table.
pub struct ItemCheckComponent;

impl<Context> HasItem for Context where
    Context: HasComponents,
    Context::Components: ItemChecker<Context>,
 {
    open spec fn holds_item(&self, name: Seq<char>) -> bool {
        Context::Components::holds_item(self, name)
    }

    fn has_item(&self, item: String) -> (found: bool) {
        Context::Components::has_item(self, item)
    }
}

impl<Component, Context> ItemChecker<Context> for Component where
    Component: DelegateComponent<ItemCheckComponent>,
    Component::Delegate: ItemChecker<Context>,
 {
    open spec fn holds_item(context: &Context, name: Seq<char>) -> bool {
        Component::Delegate::holds_item(context, name)
    }

    fn has_item(context: &Context, item: String) -> (found: bool) {
        Component::Delegate::has_item(context, item)
    }
}

/// Provider for any context that hands out its items, where an item has a
/// name: looks for the name among all the items.
pub struct GetItem;

impl<Context> ItemChecker<Context> for GetItem where
    Context: CanGetDb,
    <Context as CanGetDb>::Item: HasName,
 {
    /// Some item of the context has exactly this name: the same scalar
    /// values in the same order, nothing folded or trimmed.
    open spec fn holds_item(context: &Context, name: Seq<char>) -> bool {
        names_one_of(context.items(), name)
    }

    fn has_item(context: &Context, item: String) -> (found: bool)
        ensures
            found == names_one_of(context.items(), item@),
    {
        let db = context.get_all_items();
        let mut i: usize = 0;
        while i < db.len()
            invariant
                db@ == context.items(),
                i <= db.len(),
                forall|j: int| 0 <= j < i ==> (#[trigger] db@[j]).name_text() != item@,
            decreases db.len() - i,
        {
            if same_text(db[i].name(), item.as_str()) {
                return true;
            }
            i += 1;
        }
        false
    }
}

/// Whatever table binds [`HasItem`] to [`GetItem`] for a context, the context
/// holds an item of a name exactly if one of its items has that name.
pub proof fn lemma_get_item_finds_names<Context>(context: &Context, name: Seq<char>) where
    Context: HasComponents + CanGetDb,
    Context::Components: DelegateComponent<ItemCheckComponent, Delegate = GetItem>,
    <Context as CanGetDb>::Item: HasName,

    ensures
        context.holds_item(name) == names_one_of(context.items(), name),
{
}

/// A context answers with the provider that its table binds to [`HasItem`],
/// and with no other.
pub proof fn lemma_has_item_resolves<Context, Provider>(context: &Context, name: Seq<char>) where
    Context: HasComponents,
    Context::Components: DelegateComponent<ItemCheckComponent, Delegate = Provider>,
    Provider: ItemChecker<Context>,

    ensures
        context.holds_item(name) == Provider::holds_item(context, name),
{
}

/// A context without items holds no item, whatever the name.
pub proof fn lemma_nothing_in_empty<T: HasName>(items: Seq<T>, name: Seq<char>)
    requires
        items.len() == 0,
    ensures
        !names_one_of(items, name),
{
}

} // verus!
