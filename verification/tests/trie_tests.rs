use prefix_trie::Trie;
use prefix_trie::TrieError;

#[test]
fn lib_insert_and_find() {
    let mut trie = Trie::new();

    assert!(trie.isempty());

    trie.insert(String::from("hello")).unwrap();

    assert!(!trie.isempty());

    trie.insert(String::from("hi")).unwrap();

    assert_eq!(
        trie.find(String::from("hi")).unwrap().unwrap(),
        String::from("hi")
    );
    assert_eq!(
        trie.find(String::from("hello")).unwrap().unwrap(),
        String::from("hello")
    );
    assert_eq!(trie.find(String::from("asdf")).unwrap(), None);

    assert_eq!(trie.find(String::from("hel")).unwrap(), None);

    assert!(trie.root().has_child('h'));

    assert!(trie.root().get_child('h').unwrap().has_child('e'));

    assert_eq!(
        trie.root()
            .get_child('h')
            .unwrap()
            .get_child('e')
            .unwrap()
            .value()
            .is_empty(),
        true
    );

    assert_eq!(
        trie.root()
            .get_child('h')
            .unwrap()
            .get_child('e')
            .unwrap()
            .is_terminal(),
        false
    );

    assert!(trie.root().get_child('h').unwrap().has_child('i'));

    assert_eq!(
        trie.root()
            .get_child('h')
            .unwrap()
            .get_child('i')
            .unwrap()
            .is_terminal(),
        true
    );

    trie.delete(String::from("hi")).unwrap();

    assert_eq!(trie.find(String::from("hi")).unwrap(), None);
    assert!(trie.find(String::from("hello")).unwrap().is_some());
    assert_eq!(
        trie.find(String::from("hello")).unwrap().unwrap(),
        String::from("hello")
    );
}

#[test]
fn main_insert_and_find() {
    let mut trie = Trie::new();

    assert!(trie.isempty());

    trie.insert(String::from("hello")).unwrap();

    assert!(!trie.isempty());

    trie.insert(String::from("hi")).unwrap();

    assert_eq!(
        trie.find(String::from("hi")).unwrap().unwrap(),
        String::from("hi")
    );
    assert_eq!(
        trie.find(String::from("hello")).unwrap().unwrap(),
        String::from("hello")
    );
    assert_eq!(trie.find(String::from("asdf")).unwrap(), None);

    assert!(trie.root().has_child('h'));

    assert!(trie.root().get_child('h').unwrap().has_child('e'));

    assert!(trie.root().get_child('h').unwrap().has_child('i'));
}

#[test]
fn insert_then_find_single_key() {
    let mut trie = Trie::new();
    trie.insert(String::from("k")).unwrap();
    assert_eq!(trie.find(String::from("k")).unwrap().unwrap(), "k");
}

#[test]
fn distinct_keys_either_order() {
    let mut t1 = Trie::new();
    t1.insert(String::from("car")).unwrap();
    t1.insert(String::from("cart")).unwrap();

    let mut t2 = Trie::new();
    t2.insert(String::from("cart")).unwrap();
    t2.insert(String::from("car")).unwrap();

    for t in [&t1, &t2] {
        assert_eq!(t.find(String::from("car")).unwrap().unwrap(), "car");
        assert_eq!(t.find(String::from("cart")).unwrap().unwrap(), "cart");
        assert_eq!(t.find(String::from("ca")).unwrap(), None);
    }
}

#[test]
fn insert_is_idempotent() {
    let mut once = Trie::new();
    once.insert(String::from("dog")).unwrap();

    let mut twice = Trie::new();
    twice.insert(String::from("dog")).unwrap();
    twice.insert(String::from("dog")).unwrap();

    for t in [&once, &twice] {
        assert_eq!(t.find(String::from("dog")).unwrap().unwrap(), "dog");
        assert_eq!(t.find(String::from("do")).unwrap(), None);
        assert!(!t.isempty());
        assert!(t.root().has_child('d'));
        assert!(!t.root().has_child('o'));
    }

    // Deleting once undoes the double insert completely.
    twice.delete(String::from("dog")).unwrap();
    assert_eq!(twice.find(String::from("dog")).unwrap(), None);
    assert!(twice.isempty());
}

#[test]
fn strict_prefix_is_not_found() {
    let mut trie = Trie::new();
    trie.insert(String::from("hej")).unwrap();
    assert_eq!(trie.find(String::from("hej")).unwrap().unwrap(), "hej");
    assert_eq!(trie.find(String::from("he")).unwrap(), None);
    assert_eq!(trie.find(String::from("h")).unwrap(), None);
}

#[test]
fn delete_round_trip_keeps_other_keys() {
    let mut trie = Trie::new();
    trie.insert(String::from("ant")).unwrap();
    trie.insert(String::from("anthem")).unwrap();
    trie.insert(String::from("bee")).unwrap();

    trie.delete(String::from("anthem")).unwrap();

    assert_eq!(trie.find(String::from("anthem")).unwrap(), None);
    assert_eq!(trie.find(String::from("ant")).unwrap().unwrap(), "ant");
    assert_eq!(trie.find(String::from("bee")).unwrap().unwrap(), "bee");
}

#[test]
fn delete_prunes_dead_branch_only() {
    let mut trie = Trie::new();
    trie.insert(String::from("hello")).unwrap();
    trie.insert(String::from("hi")).unwrap();

    trie.delete(String::from("hi")).unwrap();

    // The branch for "hi" is gone, the shared node for 'h' keeps the
    // child 'e' that "hello" still uses.
    let h = trie.root().get_child('h').unwrap();
    assert!(!h.has_child('i'));
    assert!(h.has_child('e'));
    assert_eq!(trie.find(String::from("hello")).unwrap().unwrap(), "hello");
}

#[test]
fn delete_of_absent_key_is_a_noop() {
    let mut trie = Trie::new();
    trie.insert(String::from("hello")).unwrap();

    // Path breaks immediately.
    trie.delete(String::from("zzz")).unwrap();
    // Path exists but lands on a non-terminal node.
    trie.delete(String::from("hel")).unwrap();
    // Path would continue past a terminal node.
    trie.delete(String::from("helloo")).unwrap();
    // The empty key is never stored.
    trie.delete(String::from("")).unwrap();

    assert_eq!(trie.find(String::from("hello")).unwrap().unwrap(), "hello");
    assert!(!trie.isempty());
}

#[test]
fn empty_again_once_all_keys_are_deleted() {
    let mut trie = Trie::new();
    assert!(trie.isempty());

    trie.insert(String::from("ab")).unwrap();
    trie.insert(String::from("ac")).unwrap();
    assert!(!trie.isempty());

    trie.delete(String::from("ab")).unwrap();
    assert!(!trie.isempty());

    trie.delete(String::from("ac")).unwrap();
    assert!(trie.isempty());
    assert!(!trie.root().has_child('a'));
}

#[test]
fn scenario_five_keys_share_prefixes() {
    let mut trie = Trie::new();
    trie.insert(String::from("h")).unwrap();
    trie.insert(String::from("e")).unwrap();
    trie.insert(String::from("j")).unwrap();
    trie.insert(String::from("he")).unwrap();
    trie.insert(String::from("hej")).unwrap();

    assert_eq!(trie.find(String::from("he")).unwrap().unwrap(), "he");

    assert!(trie.root().has_child('h'));
    assert!(trie.root().has_child('e'));
    assert!(trie.root().has_child('j'));
    assert!(trie.root().get_child('h').unwrap().has_child('e'));
}

#[test]
fn keys_outside_the_alphabet_are_rejected() {
    let mut trie = Trie::new();
    trie.insert(String::from("hello")).unwrap();

    assert_eq!(
        trie.insert(String::from("Hello")),
        Err(TrieError::InvalidSymbol)
    );
    assert_eq!(
        trie.insert(String::from("h i")),
        Err(TrieError::InvalidSymbol)
    );
    assert_eq!(
        trie.find(String::from("h!")),
        Err(TrieError::InvalidSymbol)
    );
    assert_eq!(
        trie.delete(String::from("ABC")),
        Err(TrieError::InvalidSymbol)
    );

    // A rejected key leaves the trie unchanged.
    assert_eq!(trie.find(String::from("hello")).unwrap().unwrap(), "hello");
    assert!(!trie.isempty());
    assert!(!trie.root().has_child('z'));
}

#[test]
fn empty_key_is_never_found() {
    let trie = Trie::new();
    assert_eq!(trie.find(String::from("")).unwrap(), None);

    let mut full = Trie::new();
    full.insert(String::from("a")).unwrap();
    assert_eq!(full.find(String::from("")).unwrap(), None);
}

#[test]
fn whole_alphabet_as_one_key() {
    let mut trie = Trie::new();
    let key = String::from("abcdefghijklmnopqrstuvwxyz");
    trie.insert(key.clone()).unwrap();
    assert_eq!(trie.find(key.clone()).unwrap().unwrap(), key);
    assert_eq!(
        trie.find(String::from("abcdefghijklmnopqrstuvwxy")).unwrap(),
        None
    );
    trie.delete(key.clone()).unwrap();
    assert_eq!(trie.find(key).unwrap(), None);
    assert!(trie.isempty());
}
