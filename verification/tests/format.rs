use stordy::blockfile::{
    block_file_bytes, count_transactions, read_block, read_last_transaction, read_transaction_at,
    read_transactions, transaction_records,
};
use stordy::codec::{be64_bytes, read_be16, read_be64, size_field_bytes};
use stordy::error::ServiceError;

fn block_with(block: &[u8], txs: &[Vec<u8>]) -> Vec<u8> {
    let mut file = block_file_bytes(block).unwrap();
    file.extend_from_slice(&transaction_records(&txs.to_vec()).unwrap());
    file
}

#[test]
fn size_field_is_low_sixteen_bits_big_endian() {
    assert_eq!(size_field_bytes(300), [1, 44]);
    assert_eq!(size_field_bytes(0), [0, 0]);
    assert_eq!(size_field_bytes(65535), [255, 255]);
    assert_eq!(size_field_bytes(65536), [0, 0]);
    assert_eq!(size_field_bytes(65537), [0, 1]);
}

#[test]
fn be16_reads_big_endian() {
    assert_eq!(read_be16(&[1, 44, 9], 0), 300);
    assert_eq!(read_be16(&[1, 44, 9], 1), 44 * 256 + 9);
}

#[test]
fn be64_round_trip() {
    let b = be64_bytes(0x0102_0304_0506_0708);
    assert_eq!(b, vec![1, 2, 3, 4, 5, 6, 7, 8]);
    assert_eq!(read_be64(&b), 0x0102_0304_0506_0708);
    assert_eq!(read_be64(&be64_bytes(u64::MAX)), u64::MAX);
    assert_eq!(b, 0x0102_0304_0506_0708u64.to_be_bytes().to_vec());
}

#[test]
fn block_file_layout() {
    assert_eq!(block_file_bytes(b"abc").unwrap(), vec![0, 3, 97, 98, 99]);
    assert_eq!(block_file_bytes(b"").unwrap(), vec![0, 0]);
}

#[test]
fn block_too_large_is_refused() {
    let big = vec![7u8; 65537];
    assert_eq!(block_file_bytes(&big), Err(ServiceError::BlockTooLarge));
    let edge = vec![7u8; 65536];
    let f = block_file_bytes(&edge).unwrap();
    assert_eq!(f.len(), 65538);
    assert_eq!(&f[0..2], &[0, 0]);
}

#[test]
fn transaction_records_layout() {
    let txs = vec![b"xy".to_vec(), b"z".to_vec()];
    assert_eq!(transaction_records(&txs).unwrap(), vec![0, 2, b'x', b'y', 0, 2, 0, 1, b'z', 0, 1]);
    assert_eq!(transaction_records(&vec![]).unwrap(), Vec::<u8>::new());
}

#[test]
fn transaction_too_large_is_refused() {
    let txs = vec![b"ok".to_vec(), vec![0u8; 65537]];
    assert_eq!(transaction_records(&txs), Err(ServiceError::TransactionTooLarge));
}

#[test]
fn block_file_reads_back() {
    let txs = vec![b"first".to_vec(), b"second".to_vec(), b"".to_vec(), b"fourth".to_vec()];
    let file = block_with(b"the block", &txs);
    assert_eq!(read_block(&file), Some(b"the block".to_vec()));
    assert_eq!(read_transactions(&file), Some(txs.clone()));
    assert_eq!(count_transactions(&file), Some(4));
    assert_eq!(read_last_transaction(&file), Ok(b"fourth".to_vec()));
}

#[test]
fn appends_in_two_requests_read_back_in_order() {
    let mut file = block_with(b"b", &[b"one".to_vec()]);
    let offset = file.len() as u64;
    file.extend_from_slice(&transaction_records(&vec![b"two".to_vec(), b"three".to_vec()]).unwrap());
    assert_eq!(
        read_transactions(&file),
        Some(vec![b"one".to_vec(), b"two".to_vec(), b"three".to_vec()])
    );
    assert_eq!(read_transaction_at(&file, offset), Some(b"two".to_vec()));
    assert_eq!(read_transaction_at(&file, 3), Some(b"one".to_vec()));
}

#[test]
fn empty_block_file() {
    let file = block_with(b"blk", &[]);
    assert_eq!(read_transactions(&file), Some(vec![]));
    assert_eq!(count_transactions(&file), Some(0));
    assert_eq!(read_last_transaction(&file), Err(ServiceError::BlockEmpty));
    assert_eq!(read_transactions(&[]), Some(vec![]));
}

#[test]
fn short_files() {
    assert_eq!(read_block(&[5]), None);
    assert_eq!(read_block(&[0, 5, 1, 2]), None);
    assert_eq!(read_transactions(&[5]), None);
    assert_eq!(count_transactions(&[5]), None);
    assert_eq!(read_last_transaction(&[5]), Err(ServiceError::UnexpectedEof));
    assert_eq!(read_last_transaction(&[]), Err(ServiceError::UnexpectedEof));
}

#[test]
fn truncated_record() {
    // block "a", then a record announcing 9 bytes with only 2 present
    let file = vec![0, 1, b'a', 0, 9, 1, 2];
    assert_eq!(read_transactions(&file), None);
    assert_eq!(read_transaction_at(&file, 3), None);
    assert_eq!(read_transaction_at(&file, 6), None);
    assert_eq!(read_transaction_at(&file, 100), None);
    // the count only walks the leading size fields
    assert_eq!(count_transactions(&file), Some(1));
    // a size field cut off by the end of the file
    assert_eq!(count_transactions(&[0, 1, b'a', 0]), None);
}

#[test]
fn corrupt_trailer_and_header() {
    // trailing size field larger than the file
    assert_eq!(read_last_transaction(&[0, 0, 0, 1, 0, 200]), Err(ServiceError::Corrupt));
    // a header whose size plus two does not fit in sixteen bits
    assert_eq!(read_last_transaction(&[255, 254, 0, 0]), Err(ServiceError::Corrupt));
    assert_eq!(count_transactions(&[255, 254, 0, 0]), None);
    // a record size whose record size does not fit in sixteen bits
    assert_eq!(count_transactions(&[0, 0, 255, 252, 0]), None);
}

#[test]
fn find_all_and_last_after_several_appends() {
    let mut file = block_file_bytes(b"blk").unwrap();
    let batches = vec![vec![b"t1".to_vec()], vec![], vec![b"t2".to_vec(), b"t3".to_vec()]];
    for b in &batches {
        file.extend_from_slice(&transaction_records(b).unwrap());
        if let Some(last) = b.last() {
            assert_eq!(read_last_transaction(&file), Ok(last.clone()));
        }
    }
    let all: Vec<Vec<u8>> = batches.concat();
    assert_eq!(read_transactions(&file), Some(all));
    assert_eq!(read_block(&file), Some(b"blk".to_vec()));
}

#[test]
fn block_of_65536_bytes_still_gives_last_transaction() {
    let block = vec![3u8; 65536];
    let mut file = block_file_bytes(&block).unwrap();
    file.extend_from_slice(&transaction_records(&vec![b"t1".to_vec(), b"t2".to_vec()]).unwrap());
    assert_eq!(read_last_transaction(&file), Ok(b"t2".to_vec()));
}

#[test]
fn block_reads_back_whatever_follows() {
    let mut file = block_file_bytes(b"hdr").unwrap();
    file.extend_from_slice(&[0xff, 0xff, 1, 2, 3]);
    assert_eq!(read_block(&file), Some(b"hdr".to_vec()));
}
