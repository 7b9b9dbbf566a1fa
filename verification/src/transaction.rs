//! What the service decides when it adds and finds transactions.
//!
//! The transaction store maps a transaction's hash to an index record: the
//! offset, in the block file, of the first record written for it, and the
//! public key of its block.
use vstd::prelude::*;
use vstd::slice::{slice_subrange, slice_to_vec};
use vstd::utf8::{decode_utf8, encode_utf8, valid_utf8};
use crate::btree::{BTree, key_bytes, lookup};
use crate::codec::{be64, be64_bytes, be64_value, read_be64, lemma_be64_roundtrip, MAX_PAYLOAD};
use crate::blockfile::{all_fit, records, transaction_records};
use crate::error::{ServiceError, StoreError};

verus! {

/// The index record stored for a transaction: the offset of its first
/// record (eight bytes, big-endian) followed by the block's public key.
pub open spec fn index_record(shift: u64, block_key: Seq<char>) -> Seq<u8> {
    be64(shift) + encode_utf8(block_key)
}

/// The offset and block key held by an index record; `None` where the
/// record is shorter than eight bytes or its key is not UTF-8.
pub open spec fn parse_index_record(rec: Seq<u8>) -> Option<(u64, Seq<char>)> {
    if rec.len() < 8 {
        None
    } else if !valid_utf8(rec.subrange(8, rec.len() as int)) {
        None
    } else {
        Some((be64_value(rec), decode_utf8(rec.subrange(8, rec.len() as int))))
    }
}

/// The file id of a block, looked up by its public key.
pub open spec fn block_id_outcome(blocks: Map<Seq<u8>, Seq<u8>>, key: Seq<char>) -> Result<Seq<u8>, ServiceError> {
    match lookup(blocks, key) {
        Some(id) => Ok(id),
        None => Err(ServiceError::BlockNotFound),
    }
}

/// Whether a transaction may be added to a block: the block must exist
/// and the hash must be new; the answer is the block's file id.
pub open spec fn add_check_outcome(
    blocks: Map<Seq<u8>, Seq<u8>>,
    txs: Map<Seq<u8>, Seq<u8>>,
    block_key: Seq<char>,
    hash: Seq<char>,
) -> Result<Seq<u8>, ServiceError> {
    match lookup(blocks, block_key) {
        None => Err(ServiceError::BlockNotFound),
        Some(id) => if lookup(txs, hash) is Some {
            Err(ServiceError::TransactionAlreadyExists)
        } else {
            Ok(id)
        },
    }
}

/// Where the transaction with this hash is stored: its offset and the file
/// id found under its block's key.  The block key is looked up in the
/// transaction store itself, as the service does.
pub open spec fn locate_outcome(txs: Map<Seq<u8>, Seq<u8>>, hash: Seq<char>) -> Result<(u64, Seq<u8>), ServiceError> {
    match lookup(txs, hash) {
        None => Err(ServiceError::TransactionNotFound),
        Some(rec) => match parse_index_record(rec) {
            None => Err(ServiceError::Corrupt),
            Some((shift, block_key)) => match lookup(txs, block_key) {
                None => Err(ServiceError::BlockNotFound),
                Some(id) => Ok((shift, id)),
            },
        },
    }
}

/// The file id of the block with this public key.
pub fn find_block_id(db_block: &BTree, block_public_key: &String) -> (r: Result<Vec<u8>, ServiceError>)
    ensures
        r matches Ok(id) ==> block_id_outcome(db_block@, block_public_key@) == Ok::<Seq<u8>, ServiceError>(id@),
        r matches Err(e) ==> e == ServiceError::Store(StoreError::Storage)
            || block_id_outcome(db_block@, block_public_key@) == Err::<Seq<u8>, ServiceError>(e),
        r matches Ok(id) ==> lookup(db_block@, block_public_key@) == Some(id@),
        r matches Err(e) ==> e == ServiceError::Store(StoreError::Storage)
            || (e == ServiceError::BlockNotFound && lookup(db_block@, block_public_key@) is None),
{
    block_id_from_lookup(db_block.get(block_public_key.clone()))
}

/// The answer to a block lookup, given what the block store answered for
/// the public key.
pub fn block_id_from_lookup(found: Result<Option<Vec<u8>>, StoreError>) -> (r: Result<Vec<u8>, ServiceError>)
    ensures
        r == match found {
            Ok(Some(id)) => Ok(id),
            Ok(None) => Err(ServiceError::BlockNotFound),
            Err(e) => Err(ServiceError::Store(e)),
        },
{
    match found {
        Ok(Some(id)) => Ok(id),
        Ok(None) => Err(ServiceError::BlockNotFound),
        Err(e) => Err(ServiceError::Store(e)),
    }
}

/// Checks that a transaction may be added: its block exists and its hash
/// is not stored yet.  Gives the block's file id.
pub fn check_new_transaction(
    db_block: &BTree,
    db_transaction: &BTree,
    block_public_key: &String,
    hash: &String,
) -> (r: Result<Vec<u8>, ServiceError>)
    ensures
        r matches Ok(id) ==> add_check_outcome(db_block@, db_transaction@, block_public_key@, hash@)
            == Ok::<Seq<u8>, ServiceError>(id@),
        r matches Err(e) ==> e == ServiceError::Store(StoreError::Storage)
            || add_check_outcome(db_block@, db_transaction@, block_public_key@, hash@)
            == Err::<Seq<u8>, ServiceError>(e),
        r matches Ok(id) ==> lookup(db_block@, block_public_key@) == Some(id@)
            && lookup(db_transaction@, hash@) is None,
        r matches Err(ServiceError::BlockNotFound) ==> lookup(db_block@, block_public_key@) is None,
        r matches Err(ServiceError::TransactionAlreadyExists) ==> lookup(db_block@, block_public_key@) is Some
            && lookup(db_transaction@, hash@) is Some,
        r matches Err(e) ==> e == ServiceError::Store(StoreError::Storage) || e == ServiceError::BlockNotFound
            || e == ServiceError::TransactionAlreadyExists,
{
    let id = find_block_id(db_block, block_public_key)?;
    hash_check_answer(id, db_transaction.get(hash.clone()))
}

/// The answer to a new transaction for the block with file id `id`, given
/// what the transaction store answered for its hash.
pub fn hash_check_answer(id: Vec<u8>, existing: Result<Option<Vec<u8>>, StoreError>) -> (r: Result<Vec<u8>, ServiceError>)
    ensures
        r == match existing {
            Ok(Some(_)) => Err(ServiceError::TransactionAlreadyExists),
            Ok(None) => Ok(id),
            Err(e) => Err(ServiceError::Store(e)),
        },
{
    match existing {
        Ok(Some(_)) => Err(ServiceError::TransactionAlreadyExists),
        Ok(None) => Ok(id),
        Err(e) => Err(ServiceError::Store(e)),
    }
}

/// The indices given to the `qtd` copies of a transaction whose index is
/// `index`: each copy takes the next index.  Only the copies whose index
/// fits in 32 bits are given one; the flag tells whether some copy was left
/// without (its index would overflow).
pub fn copy_indices(index: u32, qtd: u32) -> (r: (Vec<u32>, bool))
    ensures
        r.1 <==> index + qtd > u32::MAX,
        r.0@.len() == if r.1 { u32::MAX - index } else { qtd as int },
        forall|i: int| 0 <= i < r.0@.len() ==> #[trigger] r.0@[i] == index + i + 1,
{
    let room: u32 = u32::MAX - index;
    let overflows: bool = qtd > room;
    let n: u32 = if overflows { room } else { qtd };
    let mut r: Vec<u32> = Vec::new();
    let mut i: u32 = 0;
    while i < n
        invariant
            i <= n,
            index + n <= u32::MAX,
            r@.len() == i,
            forall|j: int| 0 <= j < i ==> #[trigger] r@[j] == index + j + 1,
        decreases n - i,
    {
        r.push(index + i + 1);
        i = i + 1;
    }
    (r, overflows)
}

/// The records to append for the copies of a new transaction, checked in
/// the order the service checks them: a copy that is too large refuses the
/// request; otherwise, copies left without an index (`overflows`, as
/// [`copy_indices`] reports it) stop it; otherwise the records of every copy,
/// in order.
pub fn plan_append(encoded: &Vec<Vec<u8>>, overflows: bool) -> (r: Result<Vec<u8>, ServiceError>)
    ensures
        !all_fit(encoded.deep_view(), MAX_PAYLOAD as int)
            ==> r == Err::<Vec<u8>, ServiceError>(ServiceError::TransactionTooLarge),
        all_fit(encoded.deep_view(), MAX_PAYLOAD as int) && overflows
            ==> r == Err::<Vec<u8>, ServiceError>(ServiceError::IndexOverflow),
        all_fit(encoded.deep_view(), MAX_PAYLOAD as int) && !overflows
            ==> (r matches Ok(f) && f@ == records(encoded.deep_view())),
{
    let recs = transaction_records(encoded)?;
    if overflows {
        return Err(ServiceError::IndexOverflow);
    }
    Ok(recs)
}

/// The index record for a transaction stored at `shift` in the file of
/// the block with this public key.
pub fn index_record_bytes(shift: u64, block_public_key: &String) -> (r: Vec<u8>)
    ensures
        r@ == index_record(shift, block_public_key@),
{
    let mut r = be64_bytes(shift);
    let key: &[u8] = block_public_key.as_str().as_bytes();
    let ghost before = r@;
    let mut i: usize = 0;
    while i < key.len()
        invariant
            i <= key@.len(),
            r@ == before + key@.subrange(0, i as int),
        decreases key@.len() - i,
    {
        r.push(key[i]);
        i = i + 1;
        assert(key@.subrange(0, i as int) == key@.subrange(0, i - 1) + seq![key@[i - 1]]);
    }
    assert(key@.subrange(0, key@.len() as int) == key@);
    r
}

/// The offset and block key held by an index record.
pub fn read_index_record(rec: &[u8]) -> (r: Option<(u64, String)>)
    ensures
        r matches Some((shift, key)) ==> parse_index_record(rec@) == Some((shift, key@)),
        r is None ==> parse_index_record(rec@) is None,
{
    if rec.len() < 8 {
        return None;
    }
    let shift = read_be64(rec);
    let rest = slice_to_vec(slice_subrange(rec, 8, rec.len()));
    match crate::text::string_from_utf8(rest) {
        Some(key) => Some((shift, key)),
        None => None,
    }
}

/// Records in the transaction store where the transaction with this hash
/// was written: at `shift` in the file of the block with this public key.
pub fn record_transaction(
    db_transaction: &mut BTree,
    hash: String,
    shift: u64,
    block_public_key: &String,
) -> (r: Result<(), ServiceError>)
    ensures
        final(db_transaction).path() == old(db_transaction).path(),
        r matches Err(e) ==> e == ServiceError::Store(StoreError::Storage),
        r is Ok ==> final(db_transaction)@ == old(db_transaction)@.insert(
            key_bytes(hash@),
            index_record(shift, block_public_key@),
        ),
{
    let rec = index_record_bytes(shift, block_public_key);
    recorded_answer(db_transaction.insert(hash, rec))
}

/// The answer to recording a transaction, given what the transaction store
/// answered to the write.
pub fn recorded_answer(inserted: Result<(), StoreError>) -> (r: Result<(), ServiceError>)
    ensures
        r == match inserted {
            Ok(()) => Ok(()),
            Err(e) => Err(ServiceError::Store(e)),
        },
{
    match inserted {
        Ok(()) => Ok(()),
        Err(e) => Err(ServiceError::Store(e)),
    }
}

/// Finds where the transaction with this hash is stored: its offset and
/// the file id found under its block's key (looked up in the transaction
/// store).
pub fn locate_transaction(db_transaction: &BTree, hash: &String) -> (r: Result<(u64, Vec<u8>), ServiceError>)
    ensures
        r matches Ok((shift, id)) ==> locate_outcome(db_transaction@, hash@)
            == Ok::<(u64, Seq<u8>), ServiceError>((shift, id@)),
        r matches Err(e) ==> e == ServiceError::Store(StoreError::Storage)
            || locate_outcome(db_transaction@, hash@) == Err::<(u64, Seq<u8>), ServiceError>(e),
        r matches Ok((shift, id)) ==> match lookup(db_transaction@, hash@) {
            Some(rec) => match parse_index_record(rec) {
                Some((s, k)) => s == shift && lookup(db_transaction@, k) == Some(id@),
                None => false,
            },
            None => false,
        },
        r matches Err(ServiceError::TransactionNotFound) ==> lookup(db_transaction@, hash@) is None,
        r matches Err(ServiceError::Corrupt) ==> match lookup(db_transaction@, hash@) {
            Some(rec) => parse_index_record(rec) is None,
            None => false,
        },
        r matches Err(ServiceError::BlockNotFound) ==> match lookup(db_transaction@, hash@) {
            Some(rec) => match parse_index_record(rec) {
                Some((s, k)) => lookup(db_transaction@, k) is None,
                None => false,
            },
            None => false,
        },
        r matches Err(e) ==> e == ServiceError::Store(StoreError::Storage) || e == ServiceError::TransactionNotFound
            || e == ServiceError::Corrupt || e == ServiceError::BlockNotFound,
{
    let (shift, block_key) = index_record_from_lookup(db_transaction.get(hash.clone()))?;
    located_answer(shift, db_transaction.get(block_key))
}

/// The offset and block key of a transaction, given what the transaction
/// store answered for its hash.
pub fn index_record_from_lookup(found: Result<Option<Vec<u8>>, StoreError>) -> (r: Result<(u64, String), ServiceError>)
    ensures
        match found {
            Ok(Some(rec)) => match parse_index_record(rec@) {
                Some((shift, key)) => (r matches Ok((rs, rk)) && rs == shift && rk@ == key),
                None => r == Err::<(u64, String), ServiceError>(ServiceError::Corrupt),
            },
            Ok(None) => r == Err::<(u64, String), ServiceError>(ServiceError::TransactionNotFound),
            Err(e) => r == Err::<(u64, String), ServiceError>(ServiceError::Store(e)),
        },
{
    match found {
        Ok(Some(rec)) => match read_index_record(rec.as_slice()) {
            Some(p) => Ok(p),
            None => Err(ServiceError::Corrupt),
        },
        Ok(None) => Err(ServiceError::TransactionNotFound),
        Err(e) => Err(ServiceError::Store(e)),
    }
}

/// Where a transaction recorded at `shift` is stored, given what the
/// transaction store answered for its block's key.
pub fn located_answer(shift: u64, found: Result<Option<Vec<u8>>, StoreError>) -> (r: Result<(u64, Vec<u8>), ServiceError>)
    ensures
        r == match found {
            Ok(Some(id)) => Ok((shift, id)),
            Ok(None) => Err(ServiceError::BlockNotFound),
            Err(e) => Err(ServiceError::Store(e)),
        },
{
    match found {
        Ok(Some(id)) => Ok((shift, id)),
        Ok(None) => Err(ServiceError::BlockNotFound),
        Err(e) => Err(ServiceError::Store(e)),
    }
}

/// An index record reads back as the offset and block key it was written with.
pub proof fn lemma_index_record_read_back(shift: u64, block_key: Seq<char>)
    ensures
        parse_index_record(index_record(shift, block_key)) == Some((shift, block_key)),
{
    let rec = index_record(shift, block_key);
    let k = encode_utf8(block_key);
    assert(rec.subrange(8, rec.len() as int) =~= k);
    vstd::utf8::encode_utf8_valid_utf8(block_key);
    vstd::utf8::encode_utf8_decode_utf8(block_key);
    lemma_be64_roundtrip(shift);
    assert(be64_value(rec) == be64_value(be64(shift))) by {
        assert(rec.subrange(0, 8) =~= be64(shift));
        assert(forall|i: int| 0 <= i < 8 ==> rec[i] == be64(shift)[i]);
    }
}

/// Once a block is stored, looking up its public key gives its file id.
pub proof fn lemma_added_block_found(blocks: Map<Seq<u8>, Seq<u8>>, block_key: Seq<char>, id: Seq<u8>)
    ensures
        block_id_outcome(blocks.insert(key_bytes(block_key), id), block_key) == Ok::<Seq<u8>, ServiceError>(id),
{
    crate::btree::lemma_read_after_write(blocks, block_key, id, block_key);
}

/// Once a transaction is recorded, adding a transaction with the same hash
/// to an existing block is refused.
pub proof fn lemma_recorded_hash_refused(
    blocks: Map<Seq<u8>, Seq<u8>>,
    txs: Map<Seq<u8>, Seq<u8>>,
    block_key: Seq<char>,
    hash: Seq<char>,
    shift: u64,
    tx_block_key: Seq<char>,
)
    requires
        lookup(blocks, block_key) is Some,
    ensures
        add_check_outcome(blocks, txs.insert(key_bytes(hash), index_record(shift, tx_block_key)), block_key, hash)
            == Err::<Seq<u8>, ServiceError>(ServiceError::TransactionAlreadyExists),
{
    crate::btree::lemma_read_after_write(txs, hash, index_record(shift, tx_block_key), hash);
}

/// Once a transaction is recorded, locating it reads back the offset it
/// was recorded with; its block key is then looked up in the transaction
/// store.
pub proof fn lemma_recorded_transaction_located(
    txs: Map<Seq<u8>, Seq<u8>>,
    hash: Seq<char>,
    shift: u64,
    block_key: Seq<char>,
)
    ensures
        ({
            let after = txs.insert(key_bytes(hash), index_record(shift, block_key));
            locate_outcome(after, hash) == match lookup(after, block_key) {
                Some(id) => Ok::<(u64, Seq<u8>), ServiceError>((shift, id)),
                None => Err::<(u64, Seq<u8>), ServiceError>(ServiceError::BlockNotFound),
            }
        }),
{
    crate::btree::lemma_read_after_write(txs, hash, index_record(shift, block_key), hash);
    lemma_index_record_read_back(shift, block_key);
}

/// Finding a transaction by its hash after it was added gives the offset
/// where its copies were appended, and the record there holds its first
/// copy; this needs its block's key to be found in the transaction store,
/// where the service looks it up.
pub proof fn lemma_found_by_hash_after_add(
    txs: Map<Seq<u8>, Seq<u8>>,
    hash: Seq<char>,
    file: Seq<u8>,
    block_key: Seq<char>,
    copies: Seq<Seq<u8>>,
    id: Seq<u8>,
)
    requires
        file.len() <= u64::MAX,
        copies.len() > 0,
        copies[0].len() <= 65535,
        lookup(txs.insert(key_bytes(hash), index_record(file.len() as u64, block_key)), block_key) == Some(id),
    ensures
        locate_outcome(txs.insert(key_bytes(hash), index_record(file.len() as u64, block_key)), hash)
            == Ok::<(u64, Seq<u8>), ServiceError>((file.len() as u64, id)),
        crate::blockfile::transaction_at(file + crate::blockfile::records(copies), file.len() as int) == Some(copies[0]),
{
    lemma_recorded_transaction_located(txs, hash, file.len() as u64, block_key);
    crate::blockfile::lemma_transaction_at_append(file, copies);
}

/// Looking up a block answers with the id stored under its public key, and
/// a key that is not stored is not found.
pub proof fn lemma_block_lookup_law(blocks: Map<Seq<u8>, Seq<u8>>, key: Seq<char>)
    ensures
        lookup(blocks, key) is None ==> block_id_outcome(blocks, key) == Err::<Seq<u8>, ServiceError>(ServiceError::BlockNotFound),
        forall|id: Seq<u8>| block_id_outcome(blocks, key) == Ok::<Seq<u8>, ServiceError>(id)
            <==> lookup(blocks, key) == Some(id),
        block_id_outcome(blocks, key) is Ok || block_id_outcome(blocks, key)
            == Err::<Seq<u8>, ServiceError>(ServiceError::BlockNotFound),
{
}

/// A new transaction is accepted exactly when its block is stored and its
/// hash is not: the answer is then the block's file id.  A stored block and
/// a stored hash refuse it as already existing; a missing block refuses it
/// as not found.
pub proof fn lemma_add_check_law(
    blocks: Map<Seq<u8>, Seq<u8>>,
    txs: Map<Seq<u8>, Seq<u8>>,
    block_key: Seq<char>,
    hash: Seq<char>,
)
    ensures
        forall|id: Seq<u8>| lookup(blocks, block_key) == Some(id) && lookup(txs, hash) is None
            ==> add_check_outcome(blocks, txs, block_key, hash) == Ok::<Seq<u8>, ServiceError>(id),
        forall|id: Seq<u8>| add_check_outcome(blocks, txs, block_key, hash) == Ok::<Seq<u8>, ServiceError>(id)
            ==> lookup(blocks, block_key) == Some(id) && lookup(txs, hash) is None,
        lookup(blocks, block_key) is None ==> add_check_outcome(blocks, txs, block_key, hash)
            == Err::<Seq<u8>, ServiceError>(ServiceError::BlockNotFound),
        lookup(blocks, block_key) is Some && lookup(txs, hash) is Some ==> add_check_outcome(blocks, txs, block_key, hash)
            == Err::<Seq<u8>, ServiceError>(ServiceError::TransactionAlreadyExists),
{
}

/// Recording one transaction does not refuse another: after a transaction
/// is recorded under one hash, a transaction with a different hash is still
/// accepted into a stored block, however many transactions are stored.
pub proof fn lemma_other_hash_still_accepted(
    blocks: Map<Seq<u8>, Seq<u8>>,
    txs: Map<Seq<u8>, Seq<u8>>,
    block_key: Seq<char>,
    recorded: Seq<char>,
    rec: Seq<u8>,
    hash: Seq<char>,
    id: Seq<u8>,
)
    requires
        lookup(blocks, block_key) == Some(id),
        lookup(txs, hash) is None,
        recorded != hash,
    ensures
        add_check_outcome(blocks, txs.insert(key_bytes(recorded), rec), block_key, hash)
            == Ok::<Seq<u8>, ServiceError>(id),
{
    crate::btree::lemma_read_after_write(txs, recorded, rec, hash);
}

/// Finding a transaction by its hash: a hash that is not stored is not
/// found; a found transaction's offset is the one in the record stored
/// under its hash, and its file id is what is stored under the block key
/// of that record.
pub proof fn lemma_locate_law(txs: Map<Seq<u8>, Seq<u8>>, hash: Seq<char>)
    ensures
        lookup(txs, hash) is None ==> locate_outcome(txs, hash)
            == Err::<(u64, Seq<u8>), ServiceError>(ServiceError::TransactionNotFound),
        forall|shift: u64, id: Seq<u8>| locate_outcome(txs, hash) == Ok::<(u64, Seq<u8>), ServiceError>((shift, id))
            ==> match lookup(txs, hash) {
                Some(rec) => match parse_index_record(rec) {
                    Some((s, k)) => s == shift && lookup(txs, k) == Some(id),
                    None => false,
                },
                None => false,
            },
        forall|rec: Seq<u8>, shift: u64, k: Seq<char>, id: Seq<u8>|
            lookup(txs, hash) == Some(rec) && parse_index_record(rec) == Some((shift, k)) && lookup(txs, k) == Some(id)
            ==> locate_outcome(txs, hash) == Ok::<(u64, Seq<u8>), ServiceError>((shift, id)),
{
}

} // verus!
