use stordy::btree::{count_entries, last_entry_from, last_of_listing, BTree};
use stordy::error::StoreError;

fn fresh_store(tag: &str) -> BTree {
    let path = format!("/tmp/stordy-tests/{}-{}", tag, uuid::Uuid::now_v7());
    BTree::new(&path).unwrap()
}

#[test]
fn get_returns_what_insert_wrote() {
    let mut t = fresh_store("rw");
    assert_eq!(t.get("a".to_string()).unwrap(), None);
    t.insert("a".to_string(), vec![1, 2]).unwrap();
    t.insert("b".to_string(), vec![3]).unwrap();
    assert_eq!(t.get("a".to_string()).unwrap(), Some(vec![1, 2]));
    t.insert("a".to_string(), vec![9]).unwrap();
    assert_eq!(t.get("a".to_string()).unwrap(), Some(vec![9]));
    assert_eq!(t.get("b".to_string()).unwrap(), Some(vec![3]));
}

#[test]
fn len_counts_distinct_keys() {
    let mut t = fresh_store("len");
    assert_eq!(t.len().unwrap(), 0);
    t.insert("k1".to_string(), vec![]).unwrap();
    t.insert("k2".to_string(), vec![]).unwrap();
    t.insert("k1".to_string(), vec![5]).unwrap();
    assert_eq!(t.len().unwrap(), 2);
}

#[test]
fn iter_lists_entries_in_key_order() {
    let mut t = fresh_store("iter");
    t.insert("banana".to_string(), vec![2]).unwrap();
    t.insert("apple".to_string(), vec![1]).unwrap();
    t.insert("cherry".to_string(), vec![3]).unwrap();
    t.insert("ab".to_string(), vec![0]).unwrap();
    let es = t.iter().unwrap();
    let keys: Vec<Vec<u8>> = es.iter().map(|e| e.0.clone()).collect();
    assert_eq!(keys, vec![b"ab".to_vec(), b"apple".to_vec(), b"banana".to_vec(), b"cherry".to_vec()]);
    assert_eq!(es[2].1, vec![2]);
}

#[test]
fn get_last_gives_greatest_key() {
    let mut t = fresh_store("last");
    assert_eq!(t.get_last().unwrap(), None);
    t.insert("m".to_string(), vec![1]).unwrap();
    t.insert("z".to_string(), vec![2]).unwrap();
    t.insert("a".to_string(), vec![3]).unwrap();
    assert_eq!(t.get_last().unwrap(), Some(("z".to_string(), vec![2])));
}

#[test]
fn text_keys_with_multibyte_characters() {
    let mut t = fresh_store("utf8");
    t.insert("ação".to_string(), vec![7]).unwrap();
    assert_eq!(t.get("ação".to_string()).unwrap(), Some(vec![7]));
    assert_eq!(t.get("acao".to_string()).unwrap(), None);
    assert_eq!(t.get_last().unwrap(), Some(("ação".to_string(), vec![7])));
}

#[test]
fn answers_to_scans() {
    assert_eq!(last_entry_from(Ok(None)), Ok(None));
    assert_eq!(last_entry_from(Ok(Some((b"k".to_vec(), vec![1])))), Ok(Some(("k".to_string(), vec![1]))));
    assert_eq!(last_entry_from(Ok(Some((vec![0xff], vec![1])))), Err(StoreError::KeyNotUtf8));
    assert_eq!(last_entry_from(Err(StoreError::Storage)), Err(StoreError::Storage));
    assert_eq!(count_entries(Ok(vec![(vec![1], vec![]), (vec![2], vec![])])), Ok(2));
    assert_eq!(count_entries(Err(StoreError::Storage)), Err(StoreError::Storage));
}

#[test]
fn last_of_a_listing() {
    assert_eq!(last_of_listing(Ok(vec![])), Ok(None));
    assert_eq!(
        last_of_listing(Ok(vec![(b"a".to_vec(), vec![1]), (b"b".to_vec(), vec![2])])),
        Ok(Some((b"b".to_vec(), vec![2])))
    );
    assert_eq!(last_of_listing(Err(StoreError::Storage)), Err(StoreError::Storage));
}
