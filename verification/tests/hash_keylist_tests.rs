use keylist::hash_keylist::HashKeylist;
use std::collections::HashMap;

fn s(t: &str) -> String {
    t.to_string()
}

fn data() -> HashKeylist<String, i64> {
    HashKeylist::from_pairs(vec![(s("oke"), 1), (s("test"), 19), (s("oke"), 2)])
}

fn pairs_of(kl: &HashKeylist<String, i64>) -> Vec<(String, i64)> {
    let mut out = Vec::new();
    let mut it = kl.iter();
    while let Some(p) = it.next() {
        out.push(p);
    }
    out
}

#[test]
fn from() {
    let keylist = HashKeylist::from_pairs(vec![(s("oke"), 1), (s("test"), 19), (s("oke"), 2)]);
    let expected = data();

    assert_eq!(keylist.keys(), expected.keys());
    assert_eq!(keylist.into_pairs(), expected.into_pairs());
}

#[test]
fn iter() {
    let keylist = data();

    let mut iter = keylist.iter();
    assert_eq!(Some((s("oke"), 1)), iter.next());
    assert_eq!(Some((s("test"), 19)), iter.next());
    assert_eq!(Some((s("oke"), 2)), iter.next());
    assert_eq!(None, iter.next());
}

#[test]
fn hash_keylist_into_iter() {
    let keylist = data();

    let mut iter = keylist.into_iter();
    assert_eq!(Some((s("oke"), 1)), iter.next());
    assert_eq!(Some((s("test"), 19)), iter.next());
    assert_eq!(Some((s("oke"), 2)), iter.next());
    assert_eq!(None, iter.next());
}

#[test]
fn extend() {
    let mut keylist = data();

    keylist.extend(vec![(s("oke"), 3), (s("testing"), 918), (s("test"), 55)]);

    let expected = HashKeylist::from_pairs(vec![
        (s("oke"), 1),
        (s("test"), 19),
        (s("oke"), 2),
        (s("oke"), 3),
        (s("testing"), 918),
        (s("test"), 55),
    ]);

    assert_eq!(keylist.keys(), expected.keys());
    assert_eq!(keylist.get_all(&s("oke")), Some(&vec![1, 2, 3]));
    assert_eq!(keylist.get_all(&s("test")), Some(&vec![19, 55]));
    assert_eq!(keylist.get_all(&s("testing")), Some(&vec![918]));
    assert_eq!(keylist.into_pairs(), expected.into_pairs());
}

#[test]
fn get_all_key_value() {
    let keylist = data();

    let mut it = keylist.get_all_key_value(&s("oke"));
    let mut list = Vec::new();
    while let Some(p) = it.next() {
        list.push(p);
    }
    let expected = vec![(s("oke"), 1), (s("oke"), 2)];

    assert_eq!(list, expected);
}

#[test]
fn push() {
    let mut keylist = data();

    keylist.push(s("oke"), 3);

    assert_eq!(
        pairs_of(&keylist),
        vec![(s("oke"), 1), (s("test"), 19), (s("oke"), 2), (s("oke"), 3)]
    );
    assert_eq!(keylist.get_all(&s("oke")), Some(&vec![1, 2, 3]));

    keylist.push(s("testing"), 120);

    assert_eq!(
        pairs_of(&keylist),
        vec![
            (s("oke"), 1),
            (s("test"), 19),
            (s("oke"), 2),
            (s("oke"), 3),
            (s("testing"), 120),
        ]
    );
    assert_eq!(keylist.get_all(&s("testing")), Some(&vec![120]));
}

#[test]
fn insert() {
    let mut keylist = data();

    keylist.insert(1, s("oke"), 3);

    assert_eq!(
        pairs_of(&keylist),
        vec![(s("oke"), 1), (s("oke"), 3), (s("test"), 19), (s("oke"), 2)]
    );
    assert_eq!(keylist.get_all(&s("oke")), Some(&vec![1, 3, 2]));
    assert_eq!(
        keylist.keys(),
        vec![s("oke"), s("oke"), s("test"), s("oke")]
    );
}

#[test]
fn insert_2() {
    // rows: oke -> [1, 2, 3, 4, 5], test -> [19, 21, 23]
    // keys: [oke, oke, test, oke, test, oke, oke, test]
    let mut keylist: HashKeylist<String, i64> = HashKeylist::from_pairs(vec![
        (s("oke"), 1),
        (s("oke"), 2),
        (s("test"), 19),
        (s("oke"), 3),
        (s("test"), 21),
        (s("oke"), 4),
        (s("oke"), 5),
        (s("test"), 23),
    ]);

    keylist.insert(3, s("oke"), 1234);

    assert_eq!(keylist.get_all(&s("oke")), Some(&vec![1, 2, 1234, 3, 4, 5]));
    assert_eq!(keylist.get_all(&s("test")), Some(&vec![19, 21, 23]));
    assert_eq!(
        keylist.keys(),
        vec![
            s("oke"),
            s("oke"),
            s("test"),
            s("oke"),
            s("oke"),
            s("test"),
            s("oke"),
            s("oke"),
            s("test"),
        ]
    );

    keylist.insert(3, s("testing"), 901);

    assert_eq!(keylist.get_all(&s("oke")), Some(&vec![1, 2, 1234, 3, 4, 5]));
    assert_eq!(keylist.get_all(&s("test")), Some(&vec![19, 21, 23]));
    assert_eq!(keylist.get_all(&s("testing")), Some(&vec![901]));
    assert_eq!(
        keylist.keys(),
        vec![
            s("oke"),
            s("oke"),
            s("test"),
            s("testing"),
            s("oke"),
            s("oke"),
            s("test"),
            s("oke"),
            s("oke"),
            s("test"),
        ]
    );
}

#[test]
fn pop() {
    let mut keylist = data();

    assert_eq!(Some((s("oke"), 2)), keylist.pop());
    assert_eq!(Some((s("test"), 19)), keylist.pop());
    assert_eq!(Some((s("oke"), 1)), keylist.pop());
    assert_eq!(None, keylist.pop());
}

#[test]
fn remove_index() {
    let mut keylist = data();

    assert_eq!((s("test"), 19), keylist.remove(1));
    assert_eq!((s("oke"), 2), keylist.remove(1));
    assert_eq!((s("oke"), 1), keylist.remove(0));
    assert_eq!(None, keylist.pop());
}

#[test]
fn remove_first() {
    let mut keylist = data();

    assert_eq!((s("oke"), 1), keylist.remove(0));
    assert_eq!((s("test"), 19), keylist.remove(0));
    assert_eq!((s("oke"), 2), keylist.remove(0));
    assert_eq!(None, keylist.pop());
}

#[test]
fn is_empty() {
    let keylist: HashKeylist<u64, u64> = HashKeylist::new();
    assert!(keylist.is_empty());

    let keylist = data();
    assert!(!keylist.is_empty())
}

#[test]
fn len() {
    let keylist: HashKeylist<u64, u64> = HashKeylist::new();
    assert_eq!(0, keylist.len());

    let keylist = data();
    assert_eq!(3, keylist.len());
}

#[test]
fn hash_keylist_get() {
    let keylist = data();
    assert_eq!(Some(&1), keylist.get(&s("oke")));
}

#[test]
fn hash_keylist_get_all() {
    let keylist = data();
    assert_eq!(Some(&vec![1, 2]), keylist.get_all(&s("oke")));
}

#[test]
fn get_mut() {
    let mut keylist = data();

    let item = keylist.get_mut(&s("oke")).unwrap();
    *item += 13;

    let item = keylist.get_mut(&s("test")).unwrap();
    *item *= 2;

    assert_eq!(
        pairs_of(&keylist),
        vec![(s("oke"), 14), (s("test"), 38), (s("oke"), 2)]
    );
}

#[test]
fn keys() {
    let keylist = data();
    assert_eq!(vec![s("oke"), s("test"), s("oke")], keylist.keys());
}

#[test]
fn values() {
    let keylist = data();
    assert_eq!(vec![1, 19, 2], keylist.values());
}

#[test]
fn values_mut() {
    let mut keylist = data();

    for i in 0..keylist.len() {
        let val = keylist.values_mut(i);
        *val *= 2;
    }

    assert_eq!(
        pairs_of(&keylist),
        vec![(s("oke"), 2), (s("test"), 38), (s("oke"), 4)]
    );
}

#[test]
fn sort_by_key() {
    let mut keylist: HashKeylist<String, i64> = HashKeylist::from_pairs(vec![
        (s("oke"), 2),
        (s("test"), 19),
        (s("oke"), 1),
    ]);

    keylist.sort_by_key();

    assert_eq!(keylist.keys(), vec![s("oke"), s("oke"), s("test")]);
    assert_eq!(keylist.get_all(&s("oke")), Some(&vec![2, 1]));
    assert_eq!(keylist.get_all(&s("test")), Some(&vec![19]));
}

#[test]
fn hash_keylist_sort() {
    // rows: oke -> [2, 3, 1], test -> [21, 19]
    // keys: [oke, test, oke, test, oke]
    let mut keylist: HashKeylist<String, i64> = HashKeylist::from_pairs(vec![
        (s("oke"), 2),
        (s("test"), 21),
        (s("oke"), 3),
        (s("test"), 19),
        (s("oke"), 1),
    ]);

    keylist.sort();

    assert_eq!(
        keylist.keys(),
        vec![s("oke"), s("oke"), s("oke"), s("test"), s("test")]
    );
    assert_eq!(keylist.get_all(&s("oke")), Some(&vec![1, 2, 3]));
    assert_eq!(keylist.get_all(&s("test")), Some(&vec![19, 21]));
}

#[test]
fn multi() {
    let mut map: HashMap<&str, i64> = HashMap::new();
    map.insert("one", 1);
    map.insert("two", 2);
    map.insert("three", 3);
    map.insert("four", 4);

    let mut keylist = HashKeylist::new();
    for (k, v) in map {
        keylist.push(s(k), v);
    }
    // sorts keys alphabetically
    keylist.sort_by_key();

    keylist.push(s("one"), 11);
    keylist.push(s("five"), 5);
    keylist.push(s("five"), 1);

    assert_eq!(
        vec![
            (s("four"), 4),
            (s("one"), 1),
            (s("three"), 3),
            (s("two"), 2),
            (s("one"), 11),
            (s("five"), 5),
            (s("five"), 1),
        ],
        pairs_of(&keylist)
    );

    keylist.insert(2, s("five"), 12);

    assert_eq!(
        vec![
            (s("four"), 4),
            (s("one"), 1),
            (s("five"), 12),
            (s("three"), 3),
            (s("two"), 2),
            (s("one"), 11),
            (s("five"), 5),
            (s("five"), 1),
        ],
        pairs_of(&keylist)
    );

    assert_eq!(Some((s("five"), 1)), keylist.pop());

    assert_eq!(
        vec![
            (s("four"), 4),
            (s("one"), 1),
            (s("five"), 12),
            (s("three"), 3),
            (s("two"), 2),
            (s("one"), 11),
            (s("five"), 5),
        ],
        pairs_of(&keylist)
    );

    assert_eq!((s("two"), 2), keylist.remove(4));

    assert_eq!(
        vec![
            (s("four"), 4),
            (s("one"), 1),
            (s("five"), 12),
            (s("three"), 3),
            (s("one"), 11),
            (s("five"), 5),
        ],
        pairs_of(&keylist)
    );

    assert_eq!(
        vec![s("four"), s("one"), s("five"), s("three"), s("one"), s("five")],
        keylist.keys()
    );

    assert_eq!(vec![4, 1, 12, 3, 11, 5], keylist.values());

    assert_eq!(
        vec![
            (s("four"), 4),
            (s("one"), 1),
            (s("five"), 12),
            (s("three"), 3),
            (s("one"), 11),
            (s("five"), 5),
        ],
        keylist.into_pairs()
    )
}
