use tonbo::scope::Scope;
use tonbo::stream::{is_above_lower, is_below_upper, KeyBound};
use tonbo::timestamp::{compare_keys, compare_versions, KeyOrder, Timestamped};

fn key(s: &str) -> Vec<u8> {
    s.as_bytes().to_vec()
}

#[test]
fn keys_compare_byte_by_byte() {
    assert_eq!(compare_keys(&key("a"), &key("b")), KeyOrder::Less);
    assert_eq!(compare_keys(&key("b"), &key("a")), KeyOrder::Greater);
    assert_eq!(compare_keys(&key("ab"), &key("ab")), KeyOrder::Equal);
    assert_eq!(compare_keys(&key(""), &key("")), KeyOrder::Equal);
    // A key comes before every key that it begins.
    assert_eq!(compare_keys(&key(""), &key("a")), KeyOrder::Less);
    assert_eq!(compare_keys(&key("ab"), &key("abc")), KeyOrder::Less);
    assert_eq!(compare_keys(&key("abc"), &key("ab")), KeyOrder::Greater);
    // The first byte that differs decides, whatever follows.
    assert_eq!(compare_keys(&key("10"), &key("9")), KeyOrder::Less);
    assert_eq!(compare_keys(&vec![0, 255], &vec![1]), KeyOrder::Less);
    assert_eq!(compare_keys(&vec![128], &vec![127, 255]), KeyOrder::Greater);
}

#[test]
fn key_order_agrees_with_the_order_of_byte_vectors() {
    let keys: Vec<Vec<u8>> =
        vec![vec![], vec![0], vec![0, 0], vec![0, 1], vec![1], vec![1, 0], vec![255], vec![255, 255]];
    for a in &keys {
        for b in &keys {
            let expected = match a.cmp(b) {
                std::cmp::Ordering::Less => KeyOrder::Less,
                std::cmp::Ordering::Equal => KeyOrder::Equal,
                std::cmp::Ordering::Greater => KeyOrder::Greater,
            };
            assert_eq!(compare_keys(a, b), expected);
        }
    }
}

#[test]
fn newer_versions_of_a_key_come_first() {
    let old = Timestamped::new(key("k"), 1);
    let new = Timestamped::new(key("k"), 2);
    assert_eq!(new.compare(&old), KeyOrder::Less);
    assert_eq!(old.compare(&new), KeyOrder::Greater);
    assert_eq!(old.compare(&Timestamped::new(key("k"), 1)), KeyOrder::Equal);
    // The user key decides before the timestamp does.
    let other = Timestamped::new(key("l"), 9);
    assert_eq!(old.compare(&other), KeyOrder::Less);
    assert_eq!(other.compare(&new), KeyOrder::Greater);
    assert_eq!(compare_versions(&key("a"), 0, &key("a"), u32::MAX), KeyOrder::Greater);
    assert_eq!(compare_versions(&key("a"), 5, &key("a"), 5), KeyOrder::Equal);
    assert_eq!(compare_versions(&key("a"), 0, &key("b"), u32::MAX), KeyOrder::Less);
}

#[test]
fn sorting_by_the_version_order_puts_the_freshest_first() {
    let mut keys = vec![
        Timestamped::new(key("b"), 1),
        Timestamped::new(key("a"), 1),
        Timestamped::new(key("b"), 3),
        Timestamped::new(key("a"), 2),
    ];
    keys.sort_by(|x, y| match x.compare(y) {
        KeyOrder::Less => std::cmp::Ordering::Less,
        KeyOrder::Equal => std::cmp::Ordering::Equal,
        KeyOrder::Greater => std::cmp::Ordering::Greater,
    });
    let order: Vec<(Vec<u8>, u32)> = keys.into_iter().map(|k| (k.value, k.ts)).collect();
    assert_eq!(order, vec![(key("a"), 2), (key("a"), 1), (key("b"), 3), (key("b"), 1)]);
}

#[test]
fn bounds_of_a_range() {
    assert!(is_above_lower(&KeyBound::Unbounded, &key("")));
    assert!(is_below_upper(&KeyBound::Unbounded, &key("zzz")));
    assert!(is_above_lower(&KeyBound::Included(key("b")), &key("b")));
    assert!(!is_above_lower(&KeyBound::Excluded(key("b")), &key("b")));
    assert!(is_above_lower(&KeyBound::Excluded(key("b")), &key("ba")));
    assert!(!is_above_lower(&KeyBound::Included(key("b")), &key("a")));
    assert!(is_below_upper(&KeyBound::Included(key("b")), &key("b")));
    assert!(!is_below_upper(&KeyBound::Excluded(key("b")), &key("b")));
    assert!(is_below_upper(&KeyBound::Excluded(key("b")), &key("a")));
    assert!(!is_below_upper(&KeyBound::Included(key("b")), &key("ba")));
}

#[test]
fn scope_of_a_file() {
    let scope = Scope { min: key("c"), max: key("f"), gen: 1 };
    assert!(scope.contains(&key("c")));
    assert!(scope.contains(&key("d")));
    assert!(scope.contains(&key("f")));
    assert!(!scope.contains(&key("b")));
    assert!(!scope.contains(&key("fa")));

    let touching = Scope { min: key("f"), max: key("h"), gen: 2 };
    let inside = Scope { min: key("d"), max: key("e"), gen: 3 };
    let around = Scope { min: key("a"), max: key("z"), gen: 4 };
    let before = Scope { min: key("a"), max: key("b"), gen: 5 };
    let after = Scope { min: key("g"), max: key("h"), gen: 6 };
    assert!(scope.overlaps(&touching) && touching.overlaps(&scope));
    assert!(scope.overlaps(&inside) && inside.overlaps(&scope));
    assert!(scope.overlaps(&around) && around.overlaps(&scope));
    assert!(!scope.overlaps(&before) && !before.overlaps(&scope));
    assert!(!scope.overlaps(&after) && !after.overlaps(&scope));

    assert!(scope.meets(&KeyBound::Unbounded, &KeyBound::Unbounded));
    assert!(scope.meets(&KeyBound::Included(key("f")), &KeyBound::Unbounded));
    assert!(!scope.meets(&KeyBound::Excluded(key("f")), &KeyBound::Unbounded));
    assert!(scope.meets(&KeyBound::Unbounded, &KeyBound::Included(key("c"))));
    assert!(!scope.meets(&KeyBound::Unbounded, &KeyBound::Excluded(key("c"))));
    assert!(!scope.meets(&KeyBound::Included(key("g")), &KeyBound::Included(key("h"))));
    assert!(scope.meets(&KeyBound::Included(key("d")), &KeyBound::Included(key("d"))));
}
