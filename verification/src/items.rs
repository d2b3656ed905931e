//! Capabilities over the items that a context holds: all of them, and all of
//! them in ascending order; with the provider that serves both.
use vstd::prelude::*;
use core::marker::PhantomData;
use crate::component::{DelegateComponent, HasComponents};
use crate::order::{is_stable_sort_of, lemma_ascending_is_sorted};
use crate::order::{lemma_stably_sorted_is_stable_sort, sort_stably, stably_sorted, Orderable};

verus! {

/// Capability: hand out the items that the context holds.
pub trait CanGetDb {
    type Item;

    /// The items that the bound provider reads from this context, in order.
    spec fn items(&self) -> Seq<Self::Item>;

    /// Returns the items as a sequence of the caller's own.
    fn get_all_items(&self) -> (items: Vec<Self::Item>)
        ensures
            items@ == self.items(),
    ;
}

/// Provider side of [`CanGetDb`].
pub trait ItemsGetter<Context> {
    type Item;

    spec fn items(context: &Context) -> Seq<Self::Item>;

    fn get_all_items(context: &Context) -> (items: Vec<Self::Item>)
        ensures
            items@ == Self::items(context),
    ;
}

/// Name of the capability [`CanGetDb`] in a table.
pub struct ItemsComponent;

impl<Context> CanGetDb for Context where
    Context: HasComponents,
    Context::Components: ItemsGetter<Context>,
 {
    type Item = <Context::Components as ItemsGetter<Context>>::Item;

    open spec fn items(&self) -> Seq<Self::Item> {
        Context::Components::items(self)
    }

    fn get_all_items(&self) -> (items: Vec<Self::Item>) {
        Context::Components::get_all_items(self)
    }
}

impl<Component, Context> ItemsGetter<Context> for Component where
    Component: DelegateComponent<ItemsComponent>,
    Component::Delegate: ItemsGetter<Context>,
 {
    type Item = <Component::Delegate as ItemsGetter<Context>>::Item;

    open spec fn items(context: &Context) -> Seq<Self::Item> {
        Component::Delegate::items(context)
    }

    fn get_all_items(context: &Context) -> (items: Vec<Self::Item>) {
        Component::Delegate::get_all_items(context)
    }
}

/// Capability: hand out the items that the context holds, in ascending order.
pub trait CanGetOrderedItems {
    type Item;

    /// The sequence that the bound provider arranges for this context.
    spec fn ordered_items(&self) -> Seq<Self::Item>;

    fn get_ordered_items(&self) -> (items: Vec<Self::Item>)
        ensures
            items@ == self.ordered_items(),
    ;
}

/// Provider side of [`CanGetOrderedItems`].
pub trait OrderedItemsGetter<Context> {
    type Item;

    spec fn ordered_items(context: &Context) -> Seq<Self::Item>;

    fn get_ordered_items(context: &Context) -> (items: Vec<Self::Item>)
        ensures
            items@ == Self::ordered_items(context),
    ;
}

/// Name of the capability [`CanGetOrderedItems`] in a table.
pub struct OrderedItemsComponent;

impl<Context> CanGetOrderedItems for Context where
    Context: HasComponents,
    Context::Components: OrderedItemsGetter<Context>,
 {
    type Item = <Context::Components as OrderedItemsGetter<Context>>::Item;

    open spec fn ordered_items(&self) -> Seq<Self::Item> {
        Context::Components::ordered_items(self)
    }

    fn get_ordered_items(&self) -> (items: Vec<Self::Item>) {
        Context::Components::get_ordered_items(self)
    }
}

impl<Component, Context> OrderedItemsGetter<Context> for Component where
    Component: DelegateComponent<OrderedItemsComponent>,
    Component::Delegate: OrderedItemsGetter<Context>,
 {
    type Item = <Component::Delegate as OrderedItemsGetter<Context>>::Item;

    open spec fn ordered_items(context: &Context) -> Seq<Self::Item> {
        Component::Delegate::ordered_items(context)
    }

    fn get_ordered_items(context: &Context) -> (items: Vec<Self::Item>) {
        Component::Delegate::get_ordered_items(context)
    }
}

/// Provider for contexts that keep their items in memory. The parameter fixes
/// the item type; a value of this type holds nothing.
pub struct GetDbFromMemory<ItemContext>(PhantomData<ItemContext>);

impl<Context, ItemContext> OrderedItemsGetter<Context> for GetDbFromMemory<ItemContext> where
    ItemContext: Orderable,
    Context: CanGetDb<Item = ItemContext>,
 {
    type Item = ItemContext;

    /// The stable sort of all the items of the context.
    open spec fn ordered_items(context: &Context) -> Seq<ItemContext> {
        stably_sorted(context.items())
    }

    fn get_ordered_items(context: &Context) -> (items: Vec<ItemContext>)
        ensures
            is_stable_sort_of(items@, context.items()),
    {
        sort_stably(context.get_all_items())
    }
}

/// A context answers with the provider that its table binds to [`CanGetDb`],
/// and with no other.
pub proof fn lemma_items_resolve<Context, Provider>(context: &Context) where
    Context: HasComponents,
    Context::Components: DelegateComponent<ItemsComponent, Delegate = Provider>,
    Provider: ItemsGetter<Context>,

    ensures
        context.items() == Provider::items(context),
{
}

/// A context answers with the provider that its table binds to
/// [`CanGetOrderedItems`], and with no other.
pub proof fn lemma_ordered_items_resolve<Context, Provider>(context: &Context) where
    Context: HasComponents,
    Context::Components: DelegateComponent<OrderedItemsComponent, Delegate = Provider>,
    Provider: OrderedItemsGetter<Context>,

    ensures
        context.ordered_items() == Provider::ordered_items(context),
{
}

/// Whatever table binds [`CanGetOrderedItems`] to [`GetDbFromMemory`] for a
/// context, the ordered items are the items of the context, rearranged: in
/// ascending order, items of the same rank in the order they have in the
/// context. Ordering them once more changes nothing, and no items give no
/// ordered items.
pub proof fn lemma_memory_orders_items<Context, ItemContext>(context: &Context) where
    ItemContext: Orderable,
    Context: HasComponents + CanGetDb<Item = ItemContext>,
    Context::Components: DelegateComponent<
        OrderedItemsComponent,
        Delegate = GetDbFromMemory<ItemContext>,
    >,

    ensures
        context.ordered_items() == stably_sorted(context.items()),
        is_stable_sort_of(context.ordered_items(), context.items()),
        stably_sorted(context.ordered_items()) == context.ordered_items(),
        context.items().len() == 0 ==> context.ordered_items().len() == 0,
{
    lemma_stably_sorted_is_stable_sort(context.items());
    lemma_ascending_is_sorted(context.ordered_items());
    if context.items().len() == 0 {
        assert(context.items() =~= Seq::empty());
        lemma_ascending_is_sorted(context.items());
    }
}

} // verus!
