use keylist::hash_keylist::HashKeylist;
use keylist::vec_keylist::VecKeylist;
use keylist::Keylist;

fn s(t: &str) -> String {
    t.to_string()
}

fn pairs_of(kl: &HashKeylist<String, i64>) -> Vec<(String, i64)> {
    let mut out = Vec::new();
    let mut it = kl.iter();
    while let Some(p) = it.next() {
        out.push(p);
    }
    out
}

#[test]
fn three_records() {
    let mut keylist: HashKeylist<String, i64> = HashKeylist::new();
    keylist.push(s("oke"), 1);
    keylist.push(s("test"), 19);
    keylist.push(s("oke"), 2);

    assert_eq!(keylist.get(&s("oke")), Some(&1));
    assert_eq!(keylist.get_all(&s("oke")), Some(&vec![1, 2]));
    assert_eq!(
        pairs_of(&keylist),
        vec![(s("oke"), 1), (s("test"), 19), (s("oke"), 2)]
    );
}

#[test]
fn remove_middle_then_pop() {
    let mut keylist: HashKeylist<String, i64> = HashKeylist::new();
    keylist.push(s("oke"), 1);
    keylist.push(s("test"), 19);
    keylist.push(s("oke"), 2);

    assert_eq!(keylist.remove(1), (s("test"), 19));
    assert_eq!(pairs_of(&keylist), vec![(s("oke"), 1), (s("oke"), 2)]);
    assert_eq!(keylist.pop(), Some((s("oke"), 2)));
}

#[test]
fn sort_interleave() {
    // keys [oke, test, oke] with row(oke) = [2, 1], row(test) = [19]
    let mut keylist: HashKeylist<String, i64> =
        HashKeylist::from_pairs(vec![(s("oke"), 2), (s("test"), 19), (s("oke"), 1)]);

    keylist.sort_by_key();

    assert_eq!(keylist.get_all(&s("oke")), Some(&vec![2, 1]));
    assert_eq!(
        pairs_of(&keylist),
        vec![(s("oke"), 2), (s("oke"), 1), (s("test"), 19)]
    );
}

#[test]
fn round_trip_with_duplicates() {
    let input: Vec<(String, i64)> = vec![
        (s("a"), 1),
        (s("b"), 2),
        (s("a"), 3),
        (s("a"), 1),
        (s("c"), 4),
        (s("b"), 5),
    ];

    let keylist = HashKeylist::from_pairs(input.clone());
    let wire = keylist.into_pairs();
    assert_eq!(wire, input);

    let rebuilt = HashKeylist::from_pairs(wire);
    assert_eq!(rebuilt.keys(), vec![s("a"), s("b"), s("a"), s("a"), s("c"), s("b")]);
    assert_eq!(rebuilt.get_all(&s("a")), Some(&vec![1, 3, 1]));
    assert_eq!(rebuilt.get_all(&s("b")), Some(&vec![2, 5]));
    assert_eq!(rebuilt.get_all(&s("c")), Some(&vec![4]));
    assert_eq!(rebuilt.into_pairs(), input);
}

#[test]
fn push_pop_reverse_order() {
    let input: Vec<(String, i64)> = vec![(s("x"), 1), (s("y"), 2), (s("x"), 3), (s("z"), 4)];

    let mut keylist = HashKeylist::new();
    for (k, v) in input.clone() {
        keylist.push(k, v);
    }

    let mut popped = Vec::new();
    while let Some(p) = keylist.pop() {
        popped.push(p);
    }

    let mut expected = input;
    expected.reverse();
    assert_eq!(popped, expected);
    assert!(keylist.is_empty());
}

#[test]
fn insert_lands_at_index() {
    let mut keylist: HashKeylist<String, i64> = HashKeylist::from_pairs(vec![
        (s("a"), 10),
        (s("b"), 20),
        (s("a"), 30),
        (s("c"), 40),
    ]);

    keylist.insert(2, s("a"), 99);

    let pairs = pairs_of(&keylist);
    assert_eq!(pairs[2], (s("a"), 99));
    // the other values of key "a" keep their relative order
    assert_eq!(keylist.get_all(&s("a")), Some(&vec![10, 99, 30]));
    assert_eq!(
        pairs,
        vec![
            (s("a"), 10),
            (s("b"), 20),
            (s("a"), 99),
            (s("a"), 30),
            (s("c"), 40),
        ]
    );
}

#[test]
fn insert_at_end_and_fresh_key() {
    let mut keylist: HashKeylist<String, i64> = HashKeylist::new();
    keylist.insert(0, s("new"), 7);
    assert_eq!(pairs_of(&keylist), vec![(s("new"), 7)]);

    keylist.insert(1, s("late"), 8);
    assert_eq!(pairs_of(&keylist), vec![(s("new"), 7), (s("late"), 8)]);
}

#[test]
fn absent_key_lookups() {
    let keylist: HashKeylist<String, i64> = HashKeylist::from_pairs(vec![(s("a"), 1)]);

    assert_eq!(keylist.get(&s("zzz")), None);
    assert_eq!(keylist.get_all(&s("zzz")), None);
    assert_eq!(keylist.get_key_value(&s("zzz")), None);

    let mut it = keylist.get_all_key_value(&s("zzz"));
    assert_eq!(it.next(), None);

    let mut empty: HashKeylist<String, i64> = HashKeylist::new();
    assert_eq!(empty.pop(), None);
}

#[test]
fn iter_mut_by_position() {
    let mut keylist: HashKeylist<String, i64> =
        HashKeylist::from_pairs(vec![(s("a"), 1), (s("b"), 2), (s("a"), 3)]);

    for i in 0..keylist.len() {
        let (k, v) = keylist.iter_mut(i);
        if k == &s("a") {
            *v += 100;
        }
    }

    assert_eq!(
        pairs_of(&keylist),
        vec![(s("a"), 101), (s("b"), 2), (s("a"), 103)]
    );
}

#[test]
fn get_all_mut_keeps_length() {
    let mut keylist: HashKeylist<String, i64> =
        HashKeylist::from_pairs(vec![(s("a"), 1), (s("b"), 2), (s("a"), 3)]);

    let row = keylist.get_all_mut(&s("a")).unwrap();
    row[0] = 11;
    row[1] = 33;

    assert_eq!(pairs_of(&keylist), vec![(s("a"), 11), (s("b"), 2), (s("a"), 33)]);
}

#[test]
fn get_key_value_returns_canonical_key() {
    let keylist: HashKeylist<String, i64> = HashKeylist::from_pairs(vec![(s("a"), 1), (s("a"), 2)]);
    let (k, v) = keylist.get_key_value(&s("a")).unwrap();
    assert_eq!(k, &s("a"));
    assert_eq!(v, &1);
}

#[test]
fn string_key_order() {
    let mut keylist: HashKeylist<String, i64> = HashKeylist::from_pairs(vec![
        (s("pear"), 1),
        (s("apple"), 2),
        (s("peach"), 3),
        (s(""), 4),
        (s("ap"), 5),
    ]);

    keylist.sort_by_key();

    assert_eq!(
        keylist.keys(),
        vec![s(""), s("ap"), s("apple"), s("peach"), s("pear")]
    );
}

#[test]
fn keylist_sort_by_value_is_stable() {
    let mut keylist: Keylist<String, i64> =
        Keylist(vec![(s("a"), 2), (s("b"), 1), (s("c"), 1), (s("d"), 2)]);

    keylist.sort_by_value();

    assert_eq!(
        keylist,
        Keylist(vec![(s("b"), 1), (s("c"), 1), (s("a"), 2), (s("d"), 2)])
    );
}

#[test]
fn keylist_sort_by_key_is_stable() {
    let mut keylist: Keylist<String, i64> =
        Keylist(vec![(s("b"), 1), (s("a"), 2), (s("b"), 3), (s("a"), 4)]);

    keylist.sort_by_key();

    assert_eq!(
        keylist,
        Keylist(vec![(s("a"), 2), (s("a"), 4), (s("b"), 1), (s("b"), 3)])
    );
}

#[test]
fn keylist_structural_ops() {
    let mut keylist: Keylist<String, i64> = Keylist::new();
    keylist.push(s("k"), 1);
    keylist.insert(0, s("j"), 0);
    assert_eq!(keylist.len(), 2);
    assert!(!keylist.is_empty());
    assert_eq!(keylist.keys(), vec![s("j"), s("k")]);
    assert_eq!(keylist.values(), vec![0, 1]);
    assert!(keylist.contains(&(s("k"), 1)));
    assert!(!keylist.contains(&(s("k"), 2)));
    assert_eq!(keylist.remove(0), (s("j"), 0));
    assert_eq!(keylist.pop(), Some((s("k"), 1)));
    assert_eq!(keylist.pop(), None);
}

#[test]
fn keylist_index_mutators() {
    let mut keylist: Keylist<String, i64> = Keylist(vec![(s("a"), 1), (s("b"), 2)]);

    *keylist.values_mut(0) = 10;
    *keylist.keys_mut(1) = s("bb");
    let pair = keylist.get_key_value_mut(&s("a")).unwrap();
    pair.1 += 5;
    *keylist.get_mut(&s("bb")).unwrap() += 1;

    assert_eq!(keylist, Keylist(vec![(s("a"), 15), (s("bb"), 3)]));
}

#[test]
fn vec_keylist_mirrors_keylist() {
    let mut keylist: VecKeylist<String, i64> = VecKeylist::new();
    keylist.push(s("a"), 1);
    keylist.push(s("a"), 2);
    assert_eq!(keylist.get_key_value(&s("a")), Some(&(s("a"), 1)));
    assert_eq!(keylist.get_all_get_key_value(&s("a")), vec![(s("a"), 1), (s("a"), 2)]);
    assert_eq!(keylist.iter(), &vec![(s("a"), 1), (s("a"), 2)]);
    assert!(keylist.contains(&(s("a"), 2)));

    let mut sorted: VecKeylist<String, i64> = VecKeylist(vec![(s("b"), 9), (s("a"), 7)]);
    sorted.sort_by_key();
    assert_eq!(sorted.get_key_value_sorted(&s("b")), Some(&(s("b"), 9)));
}

#[test]
fn swapped_integer_keys() {
    let keylist: Keylist<String, i64> = Keylist(vec![(s("a"), 5), (s("b"), 2), (s("a"), 1)]);
    let mut swapped = keylist.into_swapped();

    assert_eq!(swapped.get(&5), Some(&s("a")));
    swapped.sort_by_key();
    assert_eq!(
        swapped,
        Keylist(vec![(1, s("a")), (2, s("b")), (5, s("a"))])
    );
}
