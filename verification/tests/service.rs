use stordy::block::{
    add_block, block_count, chain_block_ids, count_answer, existing_block_answer, finish_registration, hyphen_count,
    ids_from_listing, last_block_name, register_block,
};
use stordy::error::StoreError;
use stordy::blockfile::{read_transaction_at, transaction_records};
use stordy::btree::BTree;
use stordy::error::ServiceError;
use stordy::transaction::{
    block_id_from_lookup, check_new_transaction, copy_indices, find_block_id, hash_check_answer,
    index_record_bytes, index_record_from_lookup, locate_transaction, located_answer, plan_append, read_index_record,
    record_transaction, recorded_answer,
};

fn fresh_store(tag: &str) -> BTree {
    let path = format!("/tmp/stordy-tests/{}-{}", tag, uuid::Uuid::now_v7());
    BTree::new(&path).unwrap()
}

#[test]
fn add_block_gives_uuid_and_file() {
    let mut blocks = fresh_store("add");
    let (id, file) = add_block(&mut blocks, "pk1".to_string(), b"blk").unwrap();
    assert_eq!(id.len(), 36);
    assert_eq!(hyphen_count(&id), 4);
    assert!(uuid::Uuid::parse_str(std::str::from_utf8(&id).unwrap()).is_ok());
    assert_eq!(file, vec![0, 3, b'b', b'l', b'k']);
    assert_eq!(find_block_id(&blocks, &"pk1".to_string()), Ok(id.clone()));
    assert_eq!(blocks.get("pk1".to_string()).unwrap(), Some(id));
}

#[test]
fn add_block_refusals() {
    let mut blocks = fresh_store("refuse");
    assert_eq!(add_block(&mut blocks, String::new(), b"x"), Err(ServiceError::PublicKeyEmpty));
    assert_eq!(blocks.len().unwrap(), 0);
    add_block(&mut blocks, "k".to_string(), b"x").unwrap();
    assert_eq!(add_block(&mut blocks, "k".to_string(), b"y"), Err(ServiceError::BlockAlreadyExists));
    assert_eq!(blocks.len().unwrap(), 1);
}

#[test]
fn too_large_block_still_takes_its_key() {
    let mut blocks = fresh_store("large");
    let big = vec![1u8; 65537];
    assert_eq!(add_block(&mut blocks, "big".to_string(), &big), Err(ServiceError::BlockTooLarge));
    assert!(blocks.get("big".to_string()).unwrap().is_some());
    assert_eq!(add_block(&mut blocks, "big".to_string(), b"small"), Err(ServiceError::BlockAlreadyExists));
}

#[test]
fn block_count_and_chain_order() {
    let mut blocks = fresh_store("chain");
    assert_eq!(block_count(&blocks), Ok(0));
    let (id_b, _) = add_block(&mut blocks, "b".to_string(), b"1").unwrap();
    let (id_a, _) = add_block(&mut blocks, "a".to_string(), b"2").unwrap();
    assert_eq!(block_count(&blocks), Ok(2));
    assert_eq!(chain_block_ids(&blocks), Ok(vec![id_a, id_b]));
}

#[test]
fn last_block_name_picks_greatest_block_file() {
    let names = vec![
        b"0190a1b2-0000-7000-8000-000000000002".to_vec(),
        b"notablock".to_vec(),
        b"0190a1b2-0000-7000-8000-000000000009".to_vec(),
        b"a-b".to_vec(),
        b"zz-zz-zz-zz-zz-zz".to_vec(),
        b"0190a1b2-0000-7000-8000-000000000005".to_vec(),
    ];
    assert_eq!(last_block_name(names), Some(b"0190a1b2-0000-7000-8000-000000000009".to_vec()));
    assert_eq!(last_block_name(vec![b"x".to_vec(), b"a-b-c-d".to_vec()]), None);
    assert_eq!(last_block_name(vec![]), None);
    assert_eq!(last_block_name(vec![b"----".to_vec(), b"a-b-c-d-e".to_vec()]), Some(b"a-b-c-d-e".to_vec()));
}

#[test]
fn newer_block_ids_sort_last() {
    let mut blocks = fresh_store("order");
    let (first, _) = add_block(&mut blocks, "one".to_string(), b"1").unwrap();
    let (second, _) = add_block(&mut blocks, "two".to_string(), b"2").unwrap();
    assert_eq!(last_block_name(vec![second.clone(), first.clone()]), Some(second));
}

#[test]
fn hyphen_counting() {
    assert_eq!(hyphen_count(b""), 0);
    assert_eq!(hyphen_count(b"a-b--c"), 3);
}

#[test]
fn copies_take_successive_indices() {
    assert_eq!(copy_indices(5, 3), (vec![6, 7, 8], false));
    assert_eq!(copy_indices(0, 0), (Vec::<u32>::new(), false));
    assert_eq!(copy_indices(u32::MAX - 1, 1), (vec![u32::MAX], false));
    assert_eq!(copy_indices(u32::MAX - 2, 5), (vec![u32::MAX - 1, u32::MAX], true));
    assert_eq!(copy_indices(u32::MAX, 1), (Vec::<u32>::new(), true));
}

#[test]
fn index_record_round_trip() {
    let rec = index_record_bytes(258, &"blk".to_string());
    assert_eq!(rec, vec![0, 0, 0, 0, 0, 0, 1, 2, b'b', b'l', b'k']);
    assert_eq!(read_index_record(&rec), Some((258, "blk".to_string())));
    assert_eq!(read_index_record(&[0, 1, 2]), None);
    assert_eq!(read_index_record(&[0, 0, 0, 0, 0, 0, 0, 1, 0xff]), None);
    assert_eq!(read_index_record(&[0, 0, 0, 0, 0, 0, 0, 7]), Some((7, String::new())));
}

#[test]
fn checking_a_new_transaction() {
    let mut blocks = fresh_store("chk-b");
    let mut txs = fresh_store("chk-t");
    let key = "blockkey".to_string();
    let hash = "h1".to_string();
    assert_eq!(check_new_transaction(&blocks, &txs, &key, &hash), Err(ServiceError::BlockNotFound));
    let (id, _) = add_block(&mut blocks, key.clone(), b"b").unwrap();
    assert_eq!(check_new_transaction(&blocks, &txs, &key, &hash), Ok(id));
    record_transaction(&mut txs, hash.clone(), 5, &key).unwrap();
    assert_eq!(
        check_new_transaction(&blocks, &txs, &key, &hash),
        Err(ServiceError::TransactionAlreadyExists)
    );
    assert_eq!(txs.get(hash).unwrap(), Some(index_record_bytes(5, &key)));
}

#[test]
fn locating_a_transaction() {
    let mut txs = fresh_store("loc");
    let key = "blockkey".to_string();
    assert_eq!(locate_transaction(&txs, &"nope".to_string()), Err(ServiceError::TransactionNotFound));
    record_transaction(&mut txs, "h".to_string(), 11, &key).unwrap();
    // the block key is looked up in the transaction store
    assert_eq!(locate_transaction(&txs, &"h".to_string()), Err(ServiceError::BlockNotFound));
    txs.insert(key.clone(), b"file-id".to_vec()).unwrap();
    assert_eq!(locate_transaction(&txs, &"h".to_string()), Ok((11, b"file-id".to_vec())));
    txs.insert("bad".to_string(), vec![1, 2]).unwrap();
    assert_eq!(locate_transaction(&txs, &"bad".to_string()), Err(ServiceError::Corrupt));
}

#[test]
fn recorded_offset_points_at_first_copy() {
    let mut file = vec![0, 1, b'b'];
    let shift = file.len() as u64;
    file.extend_from_slice(&transaction_records(&vec![b"c1".to_vec(), b"c2".to_vec()]).unwrap());
    assert_eq!(read_transaction_at(&file, shift), Some(b"c1".to_vec()));
}

#[test]
fn register_block_with_given_id() {
    let mut blocks = fresh_store("reg");
    let id = b"0190a1b2-0000-7000-8000-00000000000a".to_vec();
    assert_eq!(
        register_block(&mut blocks, "k".to_string(), b"xy", id.clone()),
        Ok((id.clone(), vec![0, 2, b'x', b'y']))
    );
    assert_eq!(blocks.get("k".to_string()).unwrap(), Some(id.clone()));
    assert_eq!(
        register_block(&mut blocks, "k".to_string(), b"z", b"other".to_vec()),
        Err(ServiceError::BlockAlreadyExists)
    );
    assert_eq!(blocks.get("k".to_string()).unwrap(), Some(id));
    assert_eq!(
        register_block(&mut blocks, String::new(), b"z", b"other".to_vec()),
        Err(ServiceError::PublicKeyEmpty)
    );
    assert_eq!(
        register_block(&mut blocks, "huge".to_string(), &vec![0u8; 70000], b"big-id".to_vec()),
        Err(ServiceError::BlockTooLarge)
    );
    assert_eq!(blocks.get("huge".to_string()).unwrap(), Some(b"big-id".to_vec()));
    assert_eq!(blocks.len().unwrap(), 2);
}

#[test]
fn answers_to_store_lookups() {
    assert_eq!(block_id_from_lookup(Ok(Some(b"id".to_vec()))), Ok(b"id".to_vec()));
    assert_eq!(block_id_from_lookup(Ok(None)), Err(ServiceError::BlockNotFound));
    assert_eq!(block_id_from_lookup(Err(StoreError::Storage)), Err(ServiceError::Store(StoreError::Storage)));

    assert_eq!(hash_check_answer(b"id".to_vec(), Ok(None)), Ok(b"id".to_vec()));
    assert_eq!(hash_check_answer(b"id".to_vec(), Ok(Some(vec![1]))), Err(ServiceError::TransactionAlreadyExists));
    assert_eq!(hash_check_answer(b"id".to_vec(), Err(StoreError::Storage)), Err(ServiceError::Store(StoreError::Storage)));

    assert_eq!(recorded_answer(Ok(())), Ok(()));
    assert_eq!(recorded_answer(Err(StoreError::Storage)), Err(ServiceError::Store(StoreError::Storage)));

    let rec = index_record_bytes(9, &"k".to_string());
    assert_eq!(index_record_from_lookup(Ok(Some(rec))), Ok((9, "k".to_string())));
    assert_eq!(index_record_from_lookup(Ok(Some(vec![1, 2]))), Err(ServiceError::Corrupt));
    assert_eq!(index_record_from_lookup(Ok(None)), Err(ServiceError::TransactionNotFound));
    assert_eq!(index_record_from_lookup(Err(StoreError::Storage)), Err(ServiceError::Store(StoreError::Storage)));

    assert_eq!(located_answer(4, Ok(Some(b"f".to_vec()))), Ok((4, b"f".to_vec())));
    assert_eq!(located_answer(4, Ok(None)), Err(ServiceError::BlockNotFound));
    assert_eq!(located_answer(4, Err(StoreError::Storage)), Err(ServiceError::Store(StoreError::Storage)));
}

#[test]
fn answers_to_block_store_steps() {
    assert_eq!(existing_block_answer(Ok(None)), Ok(()));
    assert_eq!(existing_block_answer(Ok(Some(vec![]))), Err(ServiceError::BlockAlreadyExists));
    assert_eq!(existing_block_answer(Err(StoreError::Storage)), Err(ServiceError::Store(StoreError::Storage)));

    assert_eq!(finish_registration(b"i".to_vec(), Ok(()), b"ab"), Ok((b"i".to_vec(), vec![0, 2, b'a', b'b'])));
    assert_eq!(finish_registration(b"i".to_vec(), Ok(()), &vec![0u8; 65537]), Err(ServiceError::BlockTooLarge));
    assert_eq!(
        finish_registration(b"i".to_vec(), Err(StoreError::Storage), b"ab"),
        Err(ServiceError::Store(StoreError::Storage))
    );

    assert_eq!(count_answer(Ok(3)), Ok(3));
    assert_eq!(count_answer(Ok((1usize << 32) + 5)), Ok(5));
    assert_eq!(count_answer(Err(StoreError::Storage)), Err(ServiceError::Store(StoreError::Storage)));

    let listing = vec![(b"a".to_vec(), b"x".to_vec()), (b"b".to_vec(), b"y".to_vec())];
    assert_eq!(ids_from_listing(Ok(listing)), Ok(vec![b"x".to_vec(), b"y".to_vec()]));
    assert_eq!(ids_from_listing(Err(StoreError::Storage)), Err(ServiceError::Store(StoreError::Storage)));
}

#[test]
fn chain_length_matches_count_and_lookups() {
    let mut blocks = fresh_store("chainlaw");
    for k in ["c", "a", "b"] {
        add_block(&mut blocks, k.to_string(), b"x").unwrap();
    }
    let ids = chain_block_ids(&blocks).unwrap();
    assert_eq!(ids.len() as u32, block_count(&blocks).unwrap());
    for (k, id) in ["a", "b", "c"].iter().zip(ids.iter()) {
        assert_eq!(&find_block_id(&blocks, &k.to_string()).unwrap(), id);
    }
}

#[test]
fn planning_an_append() {
    let copies = vec![b"a".to_vec(), b"bc".to_vec()];
    assert_eq!(plan_append(&copies, false), Ok(vec![0, 1, b'a', 0, 1, 0, 2, b'b', b'c', 0, 2]));
    assert_eq!(plan_append(&copies, true), Err(ServiceError::IndexOverflow));
    let big = vec![b"a".to_vec(), vec![0u8; 65537]];
    assert_eq!(plan_append(&big, true), Err(ServiceError::TransactionTooLarge));
    assert_eq!(plan_append(&big, false), Err(ServiceError::TransactionTooLarge));
}

#[test]
fn store_keeps_its_path() {
    let path = format!("/tmp/stordy-tests/path-{}", uuid::Uuid::now_v7());
    let mut t = BTree::new(&path).unwrap();
    t.insert("k".to_string(), vec![1]).unwrap();
    drop(t);
    let again = BTree::new(&path).unwrap();
    assert_eq!(again.get("k".to_string()).unwrap(), Some(vec![1]));
}
