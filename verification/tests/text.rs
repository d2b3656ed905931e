use cgp_playground::text::{place_bytes, same_bytes};
use cgp_playground::{place, same_text, Placement};

const SAMPLES: [&str; 24] = [
    "",
    "a",
    "A",
    "aa",
    "ab",
    "b",
    "alex",
    "alexa",
    "bob",
    "Z",
    "z",
    "0",
    "10",
    "9",
    " ",
    "\u{7f}",
    "\u{80}",
    "\u{7ff}",
    "\u{800}",
    "\u{d7ff}",
    "\u{e000}",
    "\u{ffff}",
    "\u{10000}",
    "\u{10ffff}",
];

fn expected(a: &str, b: &str) -> Placement {
    if a < b {
        Placement::Before
    } else if a == b {
        Placement::Same
    } else {
        Placement::After
    }
}

#[test]
fn place_gives_named_results() {
    assert_eq!(place("a", "b"), Placement::Before);
    assert_eq!(place("b", "a"), Placement::After);
    assert_eq!(place("a", "a"), Placement::Same);
    assert_eq!(place("", ""), Placement::Same);
    assert_eq!(place("", "a"), Placement::Before);
    assert_eq!(place("a", ""), Placement::After);
    assert_eq!(place("alex", "alexa"), Placement::Before);
    assert_eq!(place("alexa", "alex"), Placement::After);
    assert_eq!(place("Z", "a"), Placement::Before);
    assert_eq!(place("10", "9"), Placement::Before);
}

#[test]
fn place_orders_by_scalar_value() {
    // U+FFFF takes three bytes, U+10000 four: the smaller scalar stands first.
    assert_eq!(place("\u{ffff}", "\u{10000}"), Placement::Before);
    assert_eq!(place("\u{7f}", "\u{80}"), Placement::Before);
    assert_eq!(place("\u{7ff}", "\u{800}"), Placement::Before);
    assert_eq!(place("\u{d7ff}", "\u{e000}"), Placement::Before);
    assert_eq!(place("z", "\u{e9}"), Placement::Before);
    assert_eq!(place("e\u{301}", "\u{e9}"), Placement::Before);
    assert_eq!(place("\u{10ffff}", "\u{10fffe}z"), Placement::After);
}

#[test]
fn place_agrees_with_the_order_of_str() {
    for a in SAMPLES {
        for b in SAMPLES {
            assert_eq!(place(a, b), expected(a, b), "{:?} against {:?}", a, b);
        }
    }
}

#[test]
fn place_agrees_with_the_order_of_chars() {
    for a in SAMPLES {
        for b in SAMPLES {
            let by_scalar = a.chars().map(|c| c as u32).cmp(b.chars().map(|c| c as u32));
            let want = match by_scalar {
                std::cmp::Ordering::Less => Placement::Before,
                std::cmp::Ordering::Equal => Placement::Same,
                std::cmp::Ordering::Greater => Placement::After,
            };
            assert_eq!(place(a, b), want, "{:?} against {:?}", a, b);
        }
    }
}

#[test]
fn place_is_a_total_order_on_the_samples() {
    for a in SAMPLES {
        assert_eq!(place(a, a), Placement::Same);
        for b in SAMPLES {
            let ab = place(a, b);
            let ba = place(b, a);
            match ab {
                Placement::Before => assert_eq!(ba, Placement::After),
                Placement::After => assert_eq!(ba, Placement::Before),
                Placement::Same => {
                    assert_eq!(ba, Placement::Same);
                    assert_eq!(a, b);
                }
            }
            for c in SAMPLES {
                if ab != Placement::After && place(b, c) != Placement::After {
                    assert_ne!(place(a, c), Placement::After);
                }
            }
        }
    }
}

#[test]
fn same_text_is_equality_of_text() {
    assert!(same_text("alex", "alex"));
    assert!(!same_text("alex", "Alex"));
    assert!(!same_text("alex", "ale"));
    assert!(!same_text("ale", "alex"));
    assert!(!same_text("alex", "alfx"));
    assert!(same_text("", ""));
    assert!(!same_text("", " "));
    assert!(same_text("名前", "名前"));
    assert!(!same_text("e\u{301}", "\u{e9}"));
    for a in SAMPLES {
        for b in SAMPLES {
            assert_eq!(same_text(a, b), a == b, "{:?} against {:?}", a, b);
        }
    }
}

#[test]
fn bytes_are_placed_lexicographically() {
    assert_eq!(place_bytes(&[], &[]), Placement::Same);
    assert_eq!(place_bytes(&[], &[0]), Placement::Before);
    assert_eq!(place_bytes(&[0], &[]), Placement::After);
    assert_eq!(place_bytes(&[1, 2, 3], &[1, 2, 3]), Placement::Same);
    assert_eq!(place_bytes(&[1, 2, 3], &[1, 2, 4]), Placement::Before);
    assert_eq!(place_bytes(&[1, 3], &[1, 2, 4]), Placement::After);
    assert_eq!(place_bytes(&[1, 2], &[1, 2, 0]), Placement::Before);
    assert_eq!(place_bytes(&[255], &[0, 255]), Placement::After);
    assert_eq!(place_bytes(&[127], &[128]), Placement::Before);
    assert!(same_bytes(&[1, 2, 3], &[1, 2, 3]));
    assert!(!same_bytes(&[1, 2, 3], &[1, 2]));
    assert!(!same_bytes(&[1, 2, 3], &[1, 2, 4]));
    assert!(!same_bytes(&[0], &[]));
    assert!(same_bytes(&[], &[]));
}
