use keylist::vec_keylist::VecKeylist;
use std::collections::HashMap;
use std::hash::{Hash, Hasher};

fn s(t: &str) -> String {
    t.to_string()
}

#[test]
fn vec_keylist_from_into_iterator() {
    let mut map: HashMap<&str, i64> = HashMap::new();
    map.insert("testing", 1);

    let mut keylist = VecKeylist::new();
    for (k, v) in map {
        keylist.push(s(k), v);
    }

    let expected = VecKeylist(vec![(s("testing"), 1)]);

    assert_eq!(keylist, expected);
}

#[test]
fn vec_keylist_sort() {
    let mut list = Vec::new();
    list.push((s("a"), 4));
    list.push((s("c"), 3));
    list.push((s("b"), 2));
    list.push((s("d"), 1));

    let mut keylist: VecKeylist<String, i64> = VecKeylist(list);
    keylist.sort();

    let expected = VecKeylist(vec![(s("a"), 4), (s("b"), 2), (s("c"), 3), (s("d"), 1)]);

    assert_eq!(keylist, expected);
}

#[test]
fn vec_keylist_into_swapped() {
    let expected = VecKeylist(vec![(4, s("a")), (3, s("c"))]);
    let mut list = Vec::new();
    list.push((s("a"), 4));
    list.push((s("c"), 3));

    let kl0: VecKeylist<String, i64> = VecKeylist(list);
    let keylist = kl0.into_swapped();

    assert_eq!(expected, keylist);
}

#[test]
fn vec_keylist_get() {
    let keylist: VecKeylist<String, i64> = VecKeylist(vec![
        (s("a"), 4),
        (s("a"), 9),
        (s("b"), 2),
        (s("c"), 3),
        (s("d"), 1),
    ]);

    assert_eq!(keylist.get(&s("a")), Some(&4));
    assert_eq!(keylist.get(&s("d")), Some(&1));
    assert_eq!(keylist.get(&s("z")), None);
}

#[test]
fn vec_keylist_get_all() {
    let keylist: VecKeylist<String, i64> = VecKeylist(vec![
        (s("a"), 4),
        (s("a"), 9),
        (s("b"), 2),
        (s("c"), 3),
        (s("d"), 1),
    ]);

    assert_eq!(keylist.get_all(&s("a")), vec![4, 9]);
    assert_eq!(keylist.get_all(&s("z")), Vec::<i64>::new());
    assert_eq!(keylist.get_all(&s("d")), vec![1]);
}

#[test]
fn vec_keylist_into_iter() {
    let keylist: VecKeylist<String, i64> = VecKeylist(vec![(s("a"), 4), (s("b"), 2)]);

    let mut items = keylist.0.into_iter();

    assert_eq!(Some((s("a"), 4)), items.next());
    assert_eq!(Some((s("b"), 2)), items.next());
}

#[test]
fn vec_keylist_get_sorted() {
    let keylist: VecKeylist<String, i64> = VecKeylist(vec![
        (s("a"), 4),
        (s("a"), 9),
        (s("b"), 2),
        (s("c"), 3),
        (s("d"), 1),
    ]);

    assert_eq!(keylist.get_sorted(&s("b")), Some(&2));
    assert_eq!(keylist.get_sorted(&s("f")), None);
}

#[test]
fn hash() {
    let mut hasher = std::collections::hash_map::DefaultHasher::default();

    let keylist = VecKeylist(vec![("a", 4), ("a", 9), ("b", 2), ("c", 3), ("d", 1)]);

    keylist.hash(&mut hasher);
    assert_eq!(145292038701700647, hasher.finish())
}
