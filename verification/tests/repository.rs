use cgp_playground::{CanGetDb, CanGetOrderedItems, Entity, HasItem, HasName, Repository};

fn entity(name: &str, value: &str) -> Entity {
    Entity { name: name.to_string(), value: value.to_string() }
}

fn repository(pairs: &[(&str, &str)]) -> Repository<Entity> {
    Repository { data: pairs.iter().map(|(n, v)| entity(n, v)).collect() }
}

#[test]
fn finds_the_one_item_by_its_name() {
    let repo = repository(&[("alex", "random")]);
    assert!(repo.has_item("alex".to_string()));
    assert!(!repo.has_item("bob".to_string()));
    assert_eq!(repo.get_ordered_items(), vec![entity("alex", "random")]);
}

#[test]
fn orders_two_items_by_name() {
    let repo = repository(&[("b", "1"), ("a", "2")]);
    assert_eq!(repo.get_ordered_items(), vec![entity("a", "2"), entity("b", "1")]);
}

#[test]
fn membership_is_exact_and_case_sensitive() {
    let repo = repository(&[("alex", "random"), ("Bob", "x"), ("", "nameless")]);
    assert!(repo.has_item("alex".to_string()));
    assert!(!repo.has_item("Alex".to_string()));
    assert!(!repo.has_item("ALEX".to_string()));
    assert!(!repo.has_item("ale".to_string()));
    assert!(!repo.has_item("alex ".to_string()));
    assert!(!repo.has_item(" alex".to_string()));
    assert!(repo.has_item("Bob".to_string()));
    assert!(!repo.has_item("bob".to_string()));
    assert!(repo.has_item("".to_string()));
    assert!(!repo.has_item("random".to_string()));
}

#[test]
fn membership_looks_at_names_beyond_ascii() {
    let repo = repository(&[("ångström", "1"), ("名前", "2"), ("e\u{301}", "3")]);
    assert!(repo.has_item("ångström".to_string()));
    assert!(repo.has_item("名前".to_string()));
    assert!(!repo.has_item("angstrom".to_string()));
    assert!(!repo.has_item("名".to_string()));
    // A composed letter is another text than the letter with a combining mark.
    assert!(repo.has_item("e\u{301}".to_string()));
    assert!(!repo.has_item("\u{e9}".to_string()));
}

#[test]
fn membership_agrees_with_a_search_through_the_names() {
    let repo = repository(&[("a", "1"), ("b", "2"), ("a", "3"), ("c", "4")]);
    for probe in ["a", "b", "c", "d", "", "ab", "A"] {
        let expected = repo.data.iter().any(|e| e.name() == probe);
        assert_eq!(repo.has_item(probe.to_string()), expected, "probe {:?}", probe);
    }
}

#[test]
fn a_name_held_twice_is_found() {
    let repo = repository(&[("dup", "2"), ("dup", "1")]);
    assert!(repo.has_item("dup".to_string()));
}

#[test]
fn empty_repository_holds_nothing() {
    let repo = repository(&[]);
    assert!(!repo.has_item("alex".to_string()));
    assert!(!repo.has_item("".to_string()));
    assert_eq!(repo.get_all_items(), Vec::<Entity>::new());
    assert_eq!(repo.get_ordered_items(), Vec::<Entity>::new());
}

#[test]
fn all_items_come_in_the_order_of_the_data() {
    let repo = repository(&[("b", "1"), ("a", "2"), ("c", "0"), ("a", "2")]);
    assert_eq!(
        repo.get_all_items(),
        vec![entity("b", "1"), entity("a", "2"), entity("c", "0"), entity("a", "2")]
    );
    assert_eq!(repo.get_all_items(), repo.data);
}

#[test]
fn changing_what_was_handed_out_leaves_the_repository_alone() {
    let repo = repository(&[("b", "1"), ("a", "2")]);
    let mut items = repo.get_all_items();
    items[0].name.push_str("changed");
    items.push(entity("new", "3"));
    items.swap(0, 1);
    assert_eq!(repo.data, vec![entity("b", "1"), entity("a", "2")]);
    assert_eq!(repo.get_all_items(), vec![entity("b", "1"), entity("a", "2")]);
    assert!(!repo.has_item("new".to_string()));

    let mut ordered = repo.get_ordered_items();
    ordered.clear();
    assert_eq!(repo.data, vec![entity("b", "1"), entity("a", "2")]);
    assert_eq!(repo.get_ordered_items(), vec![entity("a", "2"), entity("b", "1")]);
}

#[test]
fn one_name_with_two_values_is_ordered_by_value() {
    let repo = repository(&[("n", "2"), ("m", "9"), ("n", "1")]);
    assert_eq!(
        repo.get_ordered_items(),
        vec![entity("m", "9"), entity("n", "1"), entity("n", "2")]
    );
}

#[test]
fn equal_records_are_all_kept() {
    let repo = repository(&[("x", "1"), ("a", "0"), ("x", "1"), ("x", "1")]);
    assert_eq!(
        repo.get_ordered_items(),
        vec![entity("a", "0"), entity("x", "1"), entity("x", "1"), entity("x", "1")]
    );
}

#[test]
fn ordered_items_are_the_sorted_data() {
    let repo = repository(&[
        ("pear", "3"),
        ("apple", "9"),
        ("fig", ""),
        ("apple", "10"),
        ("", "z"),
        ("Pear", "3"),
        ("figs", "0"),
        ("été", "1"),
        ("zebra", "1"),
        ("名前", "2"),
    ]);
    let mut expected = repo.data.clone();
    expected.sort();
    let ordered = repo.get_ordered_items();
    assert_eq!(ordered, expected);
    assert_eq!(ordered.len(), repo.data.len());
    for pair in ordered.windows(2) {
        assert!((&pair[0].name, &pair[0].value) < (&pair[1].name, &pair[1].value));
    }
    assert_eq!(
        ordered.iter().map(|e| e.name.as_str()).collect::<Vec<_>>(),
        vec!["", "Pear", "apple", "apple", "fig", "figs", "pear", "zebra", "été", "名前"]
    );
    assert_eq!(ordered[2].value, "10");
    assert_eq!(ordered[3].value, "9");
}

#[test]
fn ordering_twice_gives_what_ordering_once_gives() {
    let repo = repository(&[("c", "1"), ("a", "2"), ("b", "3"), ("a", "1")]);
    let once = repo.get_ordered_items();
    let again = Repository { data: once.clone() }.get_ordered_items();
    assert_eq!(again, once);
    assert_eq!(
        once,
        vec![entity("a", "1"), entity("a", "2"), entity("b", "3"), entity("c", "1")]
    );
}

#[test]
fn the_same_question_gets_the_same_answer() {
    let repo = repository(&[("b", "1"), ("a", "2")]);
    assert_eq!(repo.has_item("a".to_string()), repo.has_item("a".to_string()));
    assert_eq!(repo.has_item("z".to_string()), repo.has_item("z".to_string()));
    assert_eq!(repo.get_all_items(), repo.get_all_items());
    assert_eq!(repo.get_ordered_items(), repo.get_ordered_items());
}

#[test]
fn entity_name_is_its_name_field() {
    let e = entity("alex", "random");
    assert_eq!(e.name(), "alex");
    assert_eq!(entity("", "v").name(), "");
    assert_eq!(entity("名前", "v").name(), "名前");
}

#[test]
fn entity_clone_is_equal_and_separate() {
    let e = entity("alex", "random");
    let mut c = e.clone();
    assert_eq!(c, e);
    c.value.push('!');
    assert_eq!(e, entity("alex", "random"));
    assert_eq!(c, entity("alex", "random!"));
}
