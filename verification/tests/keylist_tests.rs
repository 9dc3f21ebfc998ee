use keylist::Keylist;
use std::collections::HashMap;

fn s(t: &str) -> String {
    t.to_string()
}

#[test]
fn lib_from_into_iterator() {
    let mut map: HashMap<&str, i64> = HashMap::new();
    map.insert("testing", 1);

    let mut keylist = Keylist::new();
    for (k, v) in map {
        keylist.push(s(k), v);
    }

    let expected = Keylist(vec![(s("testing"), 1)]);

    assert_eq!(keylist, expected);
}

#[test]
fn lib_sort() {
    let mut list = Vec::new();
    list.push((s("a"), 4));
    list.push((s("c"), 3));
    list.push((s("b"), 2));
    list.push((s("d"), 1));

    let mut keylist: Keylist<String, i64> = Keylist(list);
    keylist.sort();

    let expected = Keylist(vec![(s("a"), 4), (s("b"), 2), (s("c"), 3), (s("d"), 1)]);

    assert_eq!(keylist, expected);
}

#[test]
fn lib_into_swapped() {
    let expected = Keylist(vec![(4, s("a")), (3, s("c"))]);
    let mut list = Vec::new();
    list.push((s("a"), 4));
    list.push((s("c"), 3));

    let kl0: Keylist<String, i64> = Keylist(list);
    let keylist = kl0.into_swapped();

    assert_eq!(expected, keylist);
}

#[test]
fn lib_get() {
    let keylist: Keylist<String, i64> = Keylist(vec![
        (s("a"), 4),
        (s("a"), 9),
        (s("b"), 2),
        (s("c"), 3),
        (s("d"), 1),
    ]);

    assert_eq!(keylist.get(&s("a")), Some(&4));
    assert_eq!(keylist.get(&s("d")), Some(&1));
    assert_eq!(keylist.get(&s("z")), None);
}

#[test]
fn lib_get_all() {
    let keylist: Keylist<String, i64> = Keylist(vec![
        (s("a"), 4),
        (s("a"), 9),
        (s("b"), 2),
        (s("c"), 3),
        (s("d"), 1),
    ]);

    assert_eq!(keylist.get_all(&s("a")), vec![4, 9]);
    assert_eq!(keylist.get_all(&s("z")), Vec::<i64>::new());
    assert_eq!(keylist.get_all(&s("d")), vec![1]);
}

#[test]
fn lib_into_iter() {
    let keylist: Keylist<String, i64> = Keylist(vec![(s("a"), 4), (s("b"), 2)]);

    let mut items = keylist.0.into_iter();

    assert_eq!(Some((s("a"), 4)), items.next());
    assert_eq!(Some((s("b"), 2)), items.next());
}

#[test]
fn lib_get_sorted() {
    let keylist: Keylist<String, i64> = Keylist(vec![
        (s("a"), 4),
        (s("a"), 9),
        (s("b"), 2),
        (s("c"), 3),
        (s("d"), 1),
    ]);

    assert_eq!(keylist.get_sorted(&s("b")), Some(&2));
    assert_eq!(keylist.get_sorted(&s("f")), None);
}
