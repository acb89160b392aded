use louds::{Trie, TrieLouds, TrieVec};

#[test]
fn test_trie_vec() {
    let mut t = TrieVec::new();
    let keys = &["to", "tea", "ten", "i", "in", "inn", "we"];
    let keys_not = &["te", "inno", "web", "hoge", ""];
    for key in keys {
        t.insert(key.as_bytes());
    }

    for key in keys {
        assert!(t.has(key.as_bytes()), "t should have key '{}'", key);
    }
    for key in keys_not {
        assert!(!t.has(key.as_bytes()), "t should not have key '{}'", key);
    }
}

#[test]
fn test_trie_louds() {
    let mut t = TrieVec::new();
    let keys = &["to", "tea", "ten", "i", "in", "inn", "we"];
    let keys_not = &["te", "inno", "web", "hoge", ""];
    for key in keys {
        t.insert(&key.chars().collect::<Vec<_>>());
    }

    let t = TrieLouds::from(t);

    for key in keys {
        let key = key.chars().collect::<Vec<_>>();
        assert!(t.has(&key), "t should have key '{:?}'", key);
    }
    for key in keys_not {
        let key = key.chars().collect::<Vec<_>>();
        assert!(!t.has(&key), "t should not have key '{:?}'", key);
    }
}

fn node_count(t: &TrieVec<u8>) -> usize {
    let mut it = t.bf_iter();
    let mut count = 0;
    while let Some(_) = it.next() {
        count += 1;
    }
    count
}

// Inserting the same key twice leaves the trie structurally identical to
// inserting it once.
#[test]
fn test_insert_idempotent() {
    let keys = &["to", "tea", "ten", "i", "in", "inn", "we"];
    let probes = &["to", "tea", "ten", "i", "in", "inn", "we", "te", "inno", "t", ""];
    let mut once = TrieVec::new();
    let mut twice = TrieVec::new();
    for key in keys {
        once.insert(key.as_bytes());
        twice.insert(key.as_bytes());
        twice.insert(key.as_bytes());
    }
    for p in probes {
        assert_eq!(once.has(p.as_bytes()), twice.has(p.as_bytes()));
    }
    assert_eq!(node_count(&once), node_count(&twice));
}

// The example ordered string set from the frozen-trie documentation.
#[test]
fn test_trie_louds_prefixes() {
    let mut t = TrieVec::new();
    let keys = &["ax", "ays", "ayt", "azz", "ceg", "cf"];
    for key in keys {
        t.insert(key.as_bytes());
    }
    let t = TrieLouds::from(t);
    assert!(t.has("ax".as_bytes()));
    assert!(t.has("ays".as_bytes()));
    assert!(!t.has("c".as_bytes()));
    assert!(!t.has("a".as_bytes()));
    assert!(!t.has("axx".as_bytes()));
}

// Freezing an empty trie yields a one-node trie holding no keys.
#[test]
fn test_freeze_empty() {
    let t: TrieVec<u8> = TrieVec::new();
    let t = TrieLouds::from(t);
    assert!(!t.has("".as_bytes()));
    assert!(!t.has("a".as_bytes()));
}

// Inserting the empty key marks the root terminal.
#[test]
fn test_empty_key() {
    let mut t: TrieVec<u8> = TrieVec::new();
    assert!(!t.has("".as_bytes()));
    t.insert("".as_bytes());
    assert!(t.has("".as_bytes()));
    assert!(t.terminal());
    assert_eq!(t.children_len(), 0);
    let t = TrieLouds::from(t);
    assert!(t.has("".as_bytes()));
    assert!(!t.has("a".as_bytes()));
}

// The mutable trie keeps each child list sorted by label.
#[test]
fn test_children_sorted() {
    let mut t: TrieVec<u8> = TrieVec::new();
    for key in &["d", "b", "c", "a", "e"] {
        t.insert(key.as_bytes());
    }
    assert_eq!(t.children_len(), 5);
    let cs = t.children();
    let labels: Vec<u8> = cs.iter().map(|c| c.0).collect();
    assert_eq!(labels, vec![b'a', b'b', b'c', b'd', b'e']);
    assert!(cs[0].1.terminal());
    assert_eq!(cs[0].1.children_len(), 0);
}

// The breadth-first iterator yields nodes level by level.
#[test]
fn test_bf_iter_order() {
    let mut t: TrieVec<u8> = TrieVec::new();
    for key in &["ab", "ac", "b"] {
        t.insert(key.as_bytes());
    }
    // nodes: root; 'a', 'b'; then 'ab', 'ac'
    let mut it = t.bf_iter();
    let root = it.next().expect("root");
    assert_eq!(root.children_len(), 2);
    let a = it.next().expect("node a");
    assert_eq!(a.children_len(), 2);
    assert!(!a.terminal());
    let b = it.next().expect("node b");
    assert_eq!(b.children_len(), 0);
    assert!(b.terminal());
    let ab = it.next().expect("node ab");
    assert!(ab.terminal());
    let ac = it.next().expect("node ac");
    assert!(ac.terminal());
    assert!(it.next().is_none());
}
