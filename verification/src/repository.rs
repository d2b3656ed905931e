//! The example context: a repository that keeps its items in a vector, and
//! the table that binds its capabilities.
use vstd::prelude::*;
use vstd::seq_lib::to_multiset_contains;
use crate::component::{DelegateComponent, HasComponents};
use crate::entity::{entity_at_most, lemma_same_rank_is_same_record, Entity};
use crate::items::{CanGetDb, CanGetOrderedItems, GetDbFromMemory};
use crate::items::{ItemsComponent, ItemsGetter, OrderedItemsComponent};
use crate::membership::{names_one_of, GetItem, HasItem, ItemCheckComponent};
use crate::order::{is_stable_sort_of, lemma_ascending_is_sorted};
use crate::order::{lemma_stably_sorted_is_stable_sort, stably_sorted, Orderable};

verus! {

/// A context that owns a sequence of items.
pub struct Repository<T> {
    pub data: Vec<T>,
}

/// The table of bindings of every [`Repository`].
pub struct RepositoryComponents;

impl<T> HasComponents for Repository<T> {
    type Components = RepositoryComponents;
}

impl DelegateComponent<ItemCheckComponent> for RepositoryComponents {
    type Delegate = GetItem;
}

impl DelegateComponent<ItemsComponent> for RepositoryComponents {
    type Delegate = GetDbFromMemory<Entity>;
}

impl DelegateComponent<OrderedItemsComponent> for RepositoryComponents {
    type Delegate = GetDbFromMemory<Entity>;
}

impl ItemsGetter<Repository<Entity>> for GetDbFromMemory<Entity> {
    type Item = Entity;

    /// The data of the repository as it stands.
    open spec fn items(context: &Repository<Entity>) -> Seq<Entity> {
        context.data@
    }

    fn get_all_items(context: &Repository<Entity>) -> (items: Vec<Entity>)
        ensures
            items@ == context.data@,
    {
        context.data.clone()
    }
}

/// What a repository of entities answers: its data as it stands; whether one
/// of them has the name; its data in ascending order of name and then value,
/// entities with the same name and value in the order they have in the data.
pub proof fn lemma_repository_answers(repo: &Repository<Entity>, name: Seq<char>)
    ensures
        repo.items() == repo.data@,
        repo.holds_item(name) == names_one_of(repo.data@, name),
        repo.ordered_items() == stably_sorted(repo.data@),
        is_stable_sort_of(repo.ordered_items(), repo.data@),
        forall|i: int, j: int|
            0 <= i < j < repo.ordered_items().len() ==> entity_at_most(
                #[trigger] repo.ordered_items()[i]@,
                #[trigger] repo.ordered_items()[j]@,
            ),
{
    lemma_stably_sorted_is_stable_sort(repo.data@);
    let out = repo.ordered_items();
    assert forall|i: int, j: int| 0 <= i < j < out.len() implies entity_at_most(
        #[trigger] out[i]@,
        #[trigger] out[j]@,
    ) by {
        assert(out[i].ranks_at_most(&out[j]));
    }
}

/// A repository that holds the ordered items of another hands them out in
/// the order it holds them.
pub proof fn lemma_repository_order_settles(first: &Repository<Entity>, second: &Repository<Entity>)
    requires
        second.data@ == first.ordered_items(),
    ensures
        second.ordered_items() == first.ordered_items(),
{
    lemma_stably_sorted_is_stable_sort(first.data@);
    lemma_ascending_is_sorted(second.data@);
}

/// A repository without data holds no item, whatever the name, and has no
/// ordered items.
pub proof fn lemma_empty_repository(repo: &Repository<Entity>, name: Seq<char>)
    requires
        repo.data@.len() == 0,
    ensures
        !repo.holds_item(name),
        repo.ordered_items() == Seq::<Entity>::empty(),
{
    assert(repo.data@ =~= Seq::<Entity>::empty());
    lemma_ascending_is_sorted(repo.data@);
}

/// No two entities of `s` hold the same name and the same value.
pub open spec fn distinct_entities(s: Seq<Entity>) -> bool {
    forall|i: int, j: int| 0 <= i < j < s.len() ==> (#[trigger] s[i])@ != (#[trigger] s[j])@
}

/// Data in which no two entities hold the same name and the same value comes
/// out strictly ascending: of two ordered items the earlier has the smaller
/// name, or the same name and the smaller value.
pub proof fn lemma_distinct_entities_ascend_strictly(repo: &Repository<Entity>)
    requires
        distinct_entities(repo.data@),
    ensures
        distinct_entities(repo.ordered_items()),
        forall|i: int, j: int|
            0 <= i < j < repo.ordered_items().len() ==> !entity_at_most(
                #[trigger] repo.ordered_items()[j]@,
                #[trigger] repo.ordered_items()[i]@,
            ),
{
    let data = repo.data@;
    let out = repo.ordered_items();
    lemma_stably_sorted_is_stable_sort(data);
    assert(out.to_multiset() == data.to_multiset());
    assert(data.no_duplicates());
    data.lemma_multiset_has_no_duplicates();
    out.lemma_multiset_has_no_duplicates_conv();
    assert(distinct_entities(out)) by {
        assert forall|i: int, j: int| 0 <= i < j < out.len() implies (#[trigger] out[i])@
            != (#[trigger] out[j])@ by {
            // Both are found in the data, at two places, since they differ.
            assert(out.contains(out[i]) && out.contains(out[j]));
            to_multiset_contains(out, out[i]);
            to_multiset_contains(out, out[j]);
            to_multiset_contains(data, out[i]);
            to_multiset_contains(data, out[j]);
            let a = choose|a: int| 0 <= a < data.len() && data[a] == out[i];
            let b = choose|b: int| 0 <= b < data.len() && data[b] == out[j];
            assert(a != b);
            if a < b {
                assert(data[a]@ != data[b]@);
            } else {
                assert(data[b]@ != data[a]@);
            }
        }
    }
    assert forall|i: int, j: int| 0 <= i < j < out.len() implies !entity_at_most(
        #[trigger] out[j]@,
        #[trigger] out[i]@,
    ) by {
        assert(out[i].ranks_at_most(&out[j]));
        if entity_at_most(out[j]@, out[i]@) {
            lemma_same_rank_is_same_record(out[i], out[j]);
        }
    }
}

} // verus!
