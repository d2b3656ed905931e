use cgp_playground::{sort_stably, Entity, Orderable};

fn entity(name: &str, value: &str) -> Entity {
    Entity { name: name.to_string(), value: value.to_string() }
}

#[test]
fn entities_rank_by_name_then_value() {
    assert!(entity("a", "2").at_most(&entity("b", "1")));
    assert!(!entity("b", "1").at_most(&entity("a", "2")));
    assert!(entity("a", "1").at_most(&entity("a", "2")));
    assert!(!entity("a", "2").at_most(&entity("a", "1")));
    assert!(entity("a", "1").at_most(&entity("a", "1")));
    assert!(entity("a", "z").at_most(&entity("ab", "")));
    assert!(entity("", "").at_most(&entity("", "")));
    assert!(entity("", "z").at_most(&entity("a", "")));
    assert!(entity("B", "1").at_most(&entity("a", "0")));
}

#[test]
fn entity_rank_agrees_with_the_derived_order() {
    let names = ["", "a", "ab", "b", "B", "é", "名"];
    let values = ["", "0", "1", "10", "z"];
    let mut all = Vec::new();
    for n in names {
        for v in values {
            all.push(entity(n, v));
        }
    }
    for a in &all {
        for b in &all {
            assert_eq!(a.at_most(b), a <= b, "{:?} against {:?}", a, b);
        }
    }
}

#[test]
fn sort_stably_sorts_entities_as_sort_does() {
    let data = vec![
        entity("pear", "3"),
        entity("apple", "9"),
        entity("fig", ""),
        entity("apple", "10"),
        entity("", "z"),
        entity("fig", ""),
        entity("Pear", "3"),
    ];
    let mut expected = data.clone();
    expected.sort();
    assert_eq!(sort_stably(data), expected);
}

#[test]
fn sort_stably_handles_the_small_cases() {
    assert_eq!(sort_stably(Vec::<Entity>::new()), Vec::<Entity>::new());
    assert_eq!(sort_stably(vec![entity("a", "1")]), vec![entity("a", "1")]);
    assert_eq!(
        sort_stably(vec![entity("b", "1"), entity("a", "2")]),
        vec![entity("a", "2"), entity("b", "1")]
    );
    assert_eq!(
        sort_stably(vec![entity("a", "2"), entity("b", "1")]),
        vec![entity("a", "2"), entity("b", "1")]
    );
}

#[test]
fn sort_stably_leaves_a_sorted_sequence_as_it_is() {
    let sorted = vec![entity("a", "1"), entity("a", "2"), entity("b", "0"), entity("c", "")];
    assert_eq!(sort_stably(sorted.clone()), sorted);
    let reversed: Vec<Entity> = sorted.iter().rev().cloned().collect();
    assert_eq!(sort_stably(reversed), sorted);
    assert_eq!(sort_stably(sort_stably(sorted.clone())), sorted);
}
