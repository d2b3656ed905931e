use cgp_playground::{sort_stably, Orderable};

/// Ranked by `key` alone; `tag` tells apart items of one rank.
#[derive(Debug, Clone, PartialEq)]
struct Tagged {
    key: u8,
    tag: char,
}

impl Orderable for Tagged {
    fn ranks_at_most(&self, other: &Self) -> bool {
        self.key <= other.key
    }

    fn lemma_ranks_total(_a: &Self, _b: &Self) {}

    fn lemma_ranks_transitive(_a: &Self, _b: &Self, _c: &Self) {}

    fn at_most(&self, other: &Self) -> bool {
        self.key <= other.key
    }
}

fn tagged(key: u8, tag: char) -> Tagged {
    Tagged { key, tag }
}

#[test]
fn items_of_one_rank_keep_their_order() {
    let data = vec![
        tagged(2, 'a'),
        tagged(1, 'b'),
        tagged(2, 'c'),
        tagged(0, 'd'),
        tagged(1, 'e'),
        tagged(2, 'f'),
        tagged(1, 'g'),
    ];
    let mut expected = data.clone();
    expected.sort_by_key(|t| t.key);
    let sorted = sort_stably(data);
    assert_eq!(sorted, expected);
    assert_eq!(
        sorted.iter().map(|t| t.tag).collect::<String>(),
        "dbegacf"
    );
}

#[test]
fn items_all_of_one_rank_stay_as_they_are() {
    let data = vec![tagged(5, 'x'), tagged(5, 'y'), tagged(5, 'z'), tagged(5, 'w')];
    assert_eq!(sort_stably(data.clone()), data);
}

#[test]
fn many_items_sort_as_a_stable_sort_does() {
    // A fixed sequence of keys with many ties.
    let mut seed: u32 = 12345;
    let mut data = Vec::new();
    for i in 0..1000u32 {
        seed = seed.wrapping_mul(1664525).wrapping_add(1013904223);
        let key = (seed >> 24) as u8 % 17;
        let tag = char::from_u32(0x4e00 + i).unwrap();
        data.push(tagged(key, tag));
    }
    let mut expected = data.clone();
    expected.sort_by_key(|t| t.key);
    let sorted = sort_stably(data.clone());
    assert_eq!(sorted, expected);
    assert_eq!(sort_stably(sorted.clone()), sorted);
    assert_eq!(sorted.len(), 1000);
}

#[test]
fn every_length_up_to_twenty_is_sorted() {
    for n in 0..=20u8 {
        // Descending keys, each key twice.
        let data: Vec<Tagged> =
            (0..n).map(|i| tagged((n - i) / 2, char::from(b'a' + i))).collect();
        let mut expected = data.clone();
        expected.sort_by_key(|t| t.key);
        assert_eq!(sort_stably(data), expected, "length {}", n);
    }
}
