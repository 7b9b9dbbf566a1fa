//! The layout of a block file.
//!
//! A block file starts with the encoded block, behind a two-byte
//! big-endian size field.  Each transaction stored in the block follows as
//! a record: its size field, the encoded transaction, and the size field
//! again, so that the file can be read from either end.
use vstd::prelude::*;
use vstd::slice::{slice_subrange, slice_to_vec};
use crate::codec::{be16_at, read_be16, size_field, size_field_bytes, lemma_size_field_value, MAX_PAYLOAD};
use crate::error::ServiceError;

verus! {

/// The file written for a block whose encoding is `block`.
pub open spec fn block_file(block: Seq<u8>) -> Seq<u8> {
    size_field(block.len() as int) + block
}

/// The record written for one transaction whose encoding is `tx`.
pub open spec fn record(tx: Seq<u8>) -> Seq<u8> {
    size_field(tx.len() as int) + tx + size_field(tx.len() as int)
}

/// The records of `txs`, one after the other.
pub open spec fn records(txs: Seq<Seq<u8>>) -> Seq<u8>
    decreases txs.len(),
{
    if txs.len() == 0 {
        seq![]
    } else {
        record(txs[0]) + records(txs.drop_first())
    }
}

/// Every payload is small enough that its size field holds its length.
pub open spec fn all_fit(txs: Seq<Seq<u8>>, limit: int) -> bool {
    forall|i: int| 0 <= i < txs.len() ==> #[trigger] txs[i].len() <= limit
}

/// The distance still to walk from position `p` to the end of `file`.
pub open spec fn remaining(file: Seq<u8>, p: int) -> int {
    if p < file.len() { file.len() - p } else { 0 }
}

/// The encoded block held at the start of a block file; `None` where the
/// file is too short for its size field or for the block it announces.
pub open spec fn block_payload(file: Seq<u8>) -> Option<Seq<u8>> {
    if file.len() < 2 {
        None
    } else if 2 + be16_at(file, 0) > file.len() {
        None
    } else {
        Some(file.subrange(2, 2 + be16_at(file, 0)))
    }
}

/// The transactions held by the records that start at `p`, read forward to
/// the end of the file; `None` where a record runs past the end.
pub open spec fn records_from(file: Seq<u8>, p: int) -> Option<Seq<Seq<u8>>>
    decreases remaining(file, p),
{
    if p < 0 || p >= file.len() {
        Some(seq![])
    } else if p + 2 > file.len() {
        None
    } else if p + 2 + be16_at(file, p) > file.len() {
        None
    } else {
        match records_from(file, p + be16_at(file, p) + 4) {
            Some(rest) => Some(seq![file.subrange(p + 2, p + 2 + be16_at(file, p))] + rest),
            None => None,
        }
    }
}

/// Every transaction of a block file, in the order of the file; `None`
/// where the layout runs past the end of the file.
pub open spec fn block_transactions(file: Seq<u8>) -> Option<Seq<Seq<u8>>> {
    if file.len() == 0 {
        Some(seq![])
    } else if file.len() < 2 {
        None
    } else {
        records_from(file, be16_at(file, 0) + 2)
    }
}

/// The number of records met walking from `p` by their leading size fields;
/// `None` where a size field is cut off by the end of the file or a size
/// field is so large that the size of its record does not fit in 16 bits.
pub open spec fn records_counted_from(file: Seq<u8>, p: int) -> Option<nat>
    decreases remaining(file, p),
{
    if p < 0 || p >= file.len() {
        Some(0)
    } else if p + 2 > file.len() {
        None
    } else if be16_at(file, p) + 4 > 65535 {
        None
    } else {
        match records_counted_from(file, p + be16_at(file, p) + 4) {
            Some(n) => Some(n + 1),
            None => None,
        }
    }
}

/// The number of transactions of a block file as the service counts them.
pub open spec fn transaction_count(file: Seq<u8>) -> Option<u32> {
    if file.len() < 2 {
        None
    } else if be16_at(file, 0) + 2 > 65535 {
        None
    } else {
        match records_counted_from(file, be16_at(file, 0) + 2) {
            Some(n) => if n <= u32::MAX { Some(n as u32) } else { None },
            None => None,
        }
    }
}

/// The last transaction of a block file, found from the size field at the
/// end of the file.
pub open spec fn last_transaction(file: Seq<u8>) -> Result<Seq<u8>, ServiceError> {
    if file.len() < 2 {
        Err(ServiceError::UnexpectedEof)
    } else if be16_at(file, 0) + 2 > 65535 {
        Err(ServiceError::Corrupt)
    } else if be16_at(file, 0) + 2 == file.len() {
        Err(ServiceError::BlockEmpty)
    } else if be16_at(file, file.len() - 2) > file.len() - 2 {
        Err(ServiceError::Corrupt)
    } else {
        Ok(file.subrange(file.len() - 2 - be16_at(file, file.len() - 2), file.len() - 2))
    }
}

/// The transaction whose record starts at `offset`; `None` where the
/// record runs past the end of the file.
pub open spec fn transaction_at(file: Seq<u8>, offset: int) -> Option<Seq<u8>> {
    if offset + 2 > file.len() {
        None
    } else if offset + 2 + be16_at(file, offset) > file.len() {
        None
    } else {
        Some(file.subrange(offset + 2, offset + 2 + be16_at(file, offset)))
    }
}

/// Appends `s` to `v`.
fn append_bytes(v: &mut Vec<u8>, s: &[u8])
    ensures
        final(v)@ == old(v)@ + s@,
{
    let mut i: usize = 0;
    while i < s.len()
        invariant
            i <= s@.len(),
            v@ == old(v)@ + s@.subrange(0, i as int),
        decreases s@.len() - i,
    {
        v.push(s[i]);
        i = i + 1;
        assert(s@.subrange(0, i as int) == s@.subrange(0, i - 1) + seq![s@[i - 1]]);
    }
    assert(s@.subrange(0, s@.len() as int) == s@);
}

/// The file for a block whose encoding is `block`; refused when the block
/// is larger than 65536 bytes.
pub fn block_file_bytes(block: &[u8]) -> (r: Result<Vec<u8>, ServiceError>)
    ensures
        r is Err <==> block@.len() > MAX_PAYLOAD,
        r matches Err(e) ==> e == ServiceError::BlockTooLarge,
        r matches Ok(f) ==> f@ == block_file(block@),
{
    if block.len() > MAX_PAYLOAD {
        return Err(ServiceError::BlockTooLarge);
    }
    let size = size_field_bytes(block.len());
    let mut f: Vec<u8> = Vec::new();
    append_bytes(&mut f, &size);
    append_bytes(&mut f, block);
    Ok(f)
}

/// The records for the transactions whose encodings are `txs`, in order;
/// refused when one of them is larger than 65536 bytes.
pub fn transaction_records(txs: &Vec<Vec<u8>>) -> (r: Result<Vec<u8>, ServiceError>)
    ensures
        r is Err <==> !all_fit(txs.deep_view(), MAX_PAYLOAD as int),
        r matches Err(e) ==> e == ServiceError::TransactionTooLarge,
        r matches Ok(f) ==> f@ == records(txs.deep_view()),
{
    let ghost all = txs.deep_view();
    let mut out: Vec<u8> = Vec::new();
    let mut i: usize = 0;
    while i < txs.len()
        invariant
            i <= txs@.len(),
            all == txs.deep_view(),
            all_fit(all.subrange(0, i as int), MAX_PAYLOAD as int),
            out@ == records(all.subrange(0, i as int)),
        decreases txs@.len() - i,
    {
        let tx: &Vec<u8> = &txs[i];
        proof { lemma_bytes_deep_view(tx); }
        assert(tx@ == all[i as int]);
        if tx.len() > MAX_PAYLOAD {
            return Err(ServiceError::TransactionTooLarge);
        }
        let size = size_field_bytes(tx.len());
        let ghost before = out@;
        append_bytes(&mut out, &size);
        append_bytes(&mut out, tx.as_slice());
        append_bytes(&mut out, &size);
        proof {
            lemma_records_push(all.subrange(0, i as int), all[i as int]);
            assert(all.subrange(0, i as int).push(all[i as int]) == all.subrange(0, i + 1));
            assert(out@ == before + record(all[i as int]));
        }
        i = i + 1;
    }
    assert(all.subrange(0, txs@.len() as int) == all);
    Ok(out)
}

/// The encoded block held by a block file.
pub fn read_block(file: &[u8]) -> (r: Option<Vec<u8>>)
    ensures
        r matches Some(b) ==> block_payload(file@) == Some(b@),
        r is None ==> block_payload(file@) is None,
{
    if file.len() < 2 {
        return None;
    }
    let size: usize = read_be16(file, 0) as usize;
    if size > file.len() - 2 {
        return None;
    }
    Some(slice_to_vec(slice_subrange(file, 2, 2 + size)))
}

/// Every transaction held by a block file, in order.
pub fn read_transactions(file: &[u8]) -> (r: Option<Vec<Vec<u8>>>)
    ensures
        r matches Some(v) ==> block_transactions(file@) == Some(v.deep_view()),
        r is None ==> block_transactions(file@) is None,
{
    if file.len() == 0 {
        let v: Vec<Vec<u8>> = Vec::new();
        assert(v.deep_view() =~= Seq::<Seq<u8>>::empty());
        return Some(v);
    }
    if file.len() < 2 {
        return None;
    }
    let header: usize = read_be16(file, 0) as usize;
    if header + 2 >= file.len() {
        proof { reveal_with_fuel(records_from, 2); }
        let v: Vec<Vec<u8>> = Vec::new();
        assert(v.deep_view() =~= Seq::<Seq<u8>>::empty());
        return Some(v);
    }
    let mut p: usize = header + 2;
    let mut out: Vec<Vec<u8>> = Vec::new();
    while p < file.len()
        invariant
            p <= file@.len(),
            block_transactions(file@) == match records_from(file@, p as int) {
                Some(rest) => Some(out.deep_view() + rest),
                None => None::<Seq<Seq<u8>>>,
            },
        decreases file@.len() - p,
    {
        if file.len() - p < 2 {
            return None;
        }
        let size: usize = read_be16(file, p) as usize;
        if size > file.len() - p - 2 {
            return None;
        }
        let tx = slice_to_vec(slice_subrange(file, p + 2, p + 2 + size));
        let ghost before = out.deep_view();
        proof { lemma_bytes_deep_view(&tx); }
        out.push(tx);
        assert(out.deep_view() =~= before.push(tx@));
        if size + 4 >= file.len() - p {
            proof {
                let q = p + size + 4;
                assert(records_from(file@, q as int) == Some(Seq::<Seq<u8>>::empty()));
                assert(seq![tx@] + Seq::<Seq<u8>>::empty() =~= seq![tx@]);
                assert(before + seq![tx@] =~= before.push(tx@));
            }
            assert(block_transactions(file@) == Some(out.deep_view()));
            return Some(out);
        }
        proof {
            let q = p + size + 4;
            match records_from(file@, q as int) {
                Some(rest) => {
                    assert(before + (seq![tx@] + rest) =~= before.push(tx@) + rest);
                },
                None => {},
            }
        }
        p = p + size + 4;
    }
    assert(records_from(file@, p as int) == Some(Seq::<Seq<u8>>::empty()));
    assert(out.deep_view() + Seq::<Seq<u8>>::empty() =~= out.deep_view());
    Some(out)
}

/// The number of transactions of a block file, counted by walking the
/// leading size fields of the records.
pub fn count_transactions(file: &[u8]) -> (r: Option<u32>)
    ensures
        r == transaction_count(file@),
{
    if file.len() < 2 {
        return None;
    }
    let header: u16 = read_be16(file, 0);
    if header > 65533 {
        return None;
    }
    let start: usize = header as usize + 2;
    if start >= file.len() {
        proof { reveal_with_fuel(records_counted_from, 2); }
        return Some(0);
    }
    let mut p: usize = start;
    let mut length: u32 = 0;
    while p < file.len()
        invariant
            p <= file@.len(),
            2 <= file@.len(),
            start == be16_at(file@, 0) + 2,
            be16_at(file@, 0) + 2 <= 65535,
            records_counted_from(file@, start as int) == match records_counted_from(file@, p as int) {
                Some(m) => Some((m + length) as nat),
                None => None::<nat>,
            },
        decreases file@.len() - p,
    {
        if file.len() - p < 2 {
            return None;
        }
        let size: u16 = read_be16(file, p);
        if size > 65531 {
            return None;
        }
        if length == u32::MAX {
            proof {
                match records_counted_from(file@, (p + size + 4) as int) {
                    Some(m) => {},
                    None => {},
                }
            }
            return None;
        }
        length = length + 1;
        let step: usize = size as usize + 4;
        if step >= file.len() - p {
            proof {
                assert(records_counted_from(file@, (p + step) as int) == Some(0nat));
            }
            return Some(length);
        }
        p = p + step;
    }
    assert(records_counted_from(file@, p as int) == Some(0nat));
    Some(length)
}

/// The last transaction of a block file, found from the size field at its
/// end.
pub fn read_last_transaction(file: &[u8]) -> (r: Result<Vec<u8>, ServiceError>)
    ensures
        match (r, last_transaction(file@)) {
            (Ok(t), Ok(s)) => t@ == s,
            (Err(e), Err(f)) => e == f,
            _ => false,
        },
{
    if file.len() < 2 {
        return Err(ServiceError::UnexpectedEof);
    }
    let header: u16 = read_be16(file, 0);
    if header > 65533 {
        return Err(ServiceError::Corrupt);
    }
    if header as usize + 2 == file.len() {
        return Err(ServiceError::BlockEmpty);
    }
    let end: usize = file.len() - 2;
    let size: usize = read_be16(file, end) as usize;
    if size > end {
        return Err(ServiceError::Corrupt);
    }
    Ok(slice_to_vec(slice_subrange(file, end - size, end)))
}

/// The transaction whose record starts at `offset`.
pub fn read_transaction_at(file: &[u8], offset: u64) -> (r: Option<Vec<u8>>)
    ensures
        r matches Some(t) ==> transaction_at(file@, offset as int) == Some(t@),
        r is None ==> transaction_at(file@, offset as int) is None,
{
    if offset >= file.len() as u64 {
        return None;
    }
    let p: usize = offset as usize;
    if file.len() - p < 2 {
        return None;
    }
    let size: usize = read_be16(file, p) as usize;
    if size > file.len() - p - 2 {
        return None;
    }
    Some(slice_to_vec(slice_subrange(file, p + 2, p + 2 + size)))
}

/// The deep view of a byte vector is its view.
pub proof fn lemma_bytes_deep_view(v: &Vec<u8>)
    ensures
        v.deep_view() == v@,
{
    assert(v.deep_view() =~= v@);
}

/// Appending the record of one more transaction extends the records.
pub proof fn lemma_records_push(txs: Seq<Seq<u8>>, tx: Seq<u8>)
    ensures
        records(txs.push(tx)) == records(txs) + record(tx),
    decreases txs.len(),
{
    if txs.len() == 0 {
        assert(txs.push(tx).drop_first() =~= Seq::<Seq<u8>>::empty());
        assert(txs.push(tx)[0] == tx);
        assert(records(txs.push(tx).drop_first()) == Seq::<u8>::empty());
        assert(records(txs) == Seq::<u8>::empty());
        assert(records(txs.push(tx)) =~= records(txs) + record(tx));
    } else {
        lemma_records_push(txs.drop_first(), tx);
        assert(txs.push(tx).drop_first() =~= txs.drop_first().push(tx));
        assert(txs.push(tx)[0] == txs[0]);
        assert(records(txs.push(tx)) == record(txs[0]) + records(txs.drop_first().push(tx)));
        assert(records(txs) == record(txs[0]) + records(txs.drop_first()));
        let a = record(txs[0]);
        let b = records(txs.drop_first());
        let c = record(tx);
        assert(a + (b + c) =~= (a + b) + c);
    }
}

} // verus!

verus! {

/// The size field written for a payload of at most 65535 bytes reads back
/// as its length.
proof fn lemma_field_reads_back(file: Seq<u8>, p: int, len: int)
    requires
        0 <= len <= 65535,
        0 <= p,
        p + 2 <= file.len(),
        file.subrange(p, p + 2) == size_field(len),
    ensures
        be16_at(file, p) == len,
{
    lemma_size_field_value(len, file, p);
}

/// Splits the records of a non-empty list into the first record and the rest.
proof fn lemma_first_record(prefix: Seq<u8>, txs: Seq<Seq<u8>>)
    requires
        txs.len() > 0,
    ensures
        prefix + records(txs) == (prefix + record(txs[0])) + records(txs.drop_first()),
        (prefix + records(txs)).subrange(prefix.len() as int, prefix.len() + 2int) == size_field(txs[0].len() as int),
        (prefix + records(txs)).subrange(prefix.len() + 2int, prefix.len() + 2int + txs[0].len()) == txs[0],
        (prefix + records(txs)).len() >= prefix.len() + txs[0].len() + 4int,
{
    let t = txs[0];
    let file = prefix + records(txs);
    assert(records(txs) == record(t) + records(txs.drop_first()));
    assert(file =~= (prefix + record(t)) + records(txs.drop_first()));
    assert(file.subrange(prefix.len() as int, prefix.len() + 2int) =~= size_field(t.len() as int));
    assert(file.subrange(prefix.len() + 2int, prefix.len() + 2int + t.len()) =~= t);
}

/// Reading forward from the first record gives back every transaction
/// whose record was written, in order.
pub proof fn lemma_records_read_back(prefix: Seq<u8>, txs: Seq<Seq<u8>>)
    requires
        all_fit(txs, 65535),
    ensures
        records_from(prefix + records(txs), prefix.len() as int) == Some(txs),
    decreases txs.len(),
{
    let file = prefix + records(txs);
    if txs.len() == 0 {
        assert(file =~= prefix);
        assert(txs =~= Seq::<Seq<u8>>::empty());
    } else {
        let t = txs[0];
        let rest = txs.drop_first();
        let p = prefix.len() as int;
        lemma_first_record(prefix, txs);
        lemma_field_reads_back(file, p, t.len() as int);
        assert(all_fit(rest, 65535)) by {
            assert forall|i: int| 0 <= i < rest.len() implies #[trigger] rest[i].len() <= 65535 by {
                assert(rest[i] == txs[i + 1]);
            }
        }
        lemma_records_read_back(prefix + record(t), rest);
        assert((prefix + record(t)).len() == p + t.len() + 4);
        assert(seq![t] + rest =~= txs);
    }
}

/// Walking the leading size fields from the first record counts every
/// record that was written.
pub proof fn lemma_records_counted(prefix: Seq<u8>, txs: Seq<Seq<u8>>)
    requires
        all_fit(txs, 65531),
    ensures
        records_counted_from(prefix + records(txs), prefix.len() as int) == Some(txs.len()),
    decreases txs.len(),
{
    let file = prefix + records(txs);
    if txs.len() == 0 {
        assert(file =~= prefix);
    } else {
        let t = txs[0];
        let rest = txs.drop_first();
        let p = prefix.len() as int;
        lemma_first_record(prefix, txs);
        lemma_field_reads_back(file, p, t.len() as int);
        assert(all_fit(rest, 65531)) by {
            assert forall|i: int| 0 <= i < rest.len() implies #[trigger] rest[i].len() <= 65531 by {
                assert(rest[i] == txs[i + 1]);
            }
        }
        lemma_records_counted(prefix + record(t), rest);
        assert((prefix + record(t)).len() == p + t.len() + 4);
    }
}

/// The records of two lists, one after the other, are the records of the
/// joined list: appending transactions to a block in two requests lays the
/// file out as appending them in one.
pub proof fn lemma_records_concat(a: Seq<Seq<u8>>, b: Seq<Seq<u8>>)
    ensures
        records(a + b) == records(a) + records(b),
    decreases a.len(),
{
    if a.len() == 0 {
        assert(a + b =~= b);
        assert(records(a) + records(b) =~= records(b));
    } else {
        lemma_records_concat(a.drop_first(), b);
        assert((a + b).drop_first() =~= a.drop_first() + b);
        assert((a + b)[0] == a[0]);
        let x = record(a[0]);
        let y = records(a.drop_first());
        let z = records(b);
        assert(x + (y + z) =~= (x + y) + z);
    }
}

/// A block file read back: the block and every transaction appended to
/// it come back as they were written.
pub proof fn lemma_block_file_read_back(block: Seq<u8>, txs: Seq<Seq<u8>>)
    requires
        block.len() <= 65535,
        all_fit(txs, 65535),
    ensures
        block_payload(block_file(block) + records(txs)) == Some(block),
        block_transactions(block_file(block) + records(txs)) == Some(txs),
{
    let head = block_file(block);
    let file = head + records(txs);
    assert(file.subrange(0, 2) =~= size_field(block.len() as int));
    lemma_field_reads_back(file, 0, block.len() as int);
    assert(file.subrange(2, 2int + block.len()) =~= block);
    lemma_records_read_back(head, txs);
}

/// Counting the transactions of a block file gives the number appended to
/// it, when the sizes leave room for the record arithmetic in 16 bits.
pub proof fn lemma_block_file_count(block: Seq<u8>, txs: Seq<Seq<u8>>)
    requires
        block.len() <= 65533,
        all_fit(txs, 65531),
        txs.len() <= u32::MAX,
    ensures
        transaction_count(block_file(block) + records(txs)) == Some(txs.len() as u32),
{
    let head = block_file(block);
    let file = head + records(txs);
    assert(file.subrange(0, 2) =~= size_field(block.len() as int));
    lemma_field_reads_back(file, 0, block.len() as int);
    lemma_records_counted(head, txs);
}

/// The last transaction of a block file is the last one appended; a block
/// without transactions is reported empty.  A block of 65536 bytes (size
/// field 0) still gives its last transaction back, once it has one.
pub proof fn lemma_block_file_last(block: Seq<u8>, txs: Seq<Seq<u8>>)
    requires
        block.len() <= 65533 || (block.len() == 65536 && txs.len() > 0),
        all_fit(txs, 65535),
    ensures
        last_transaction(block_file(block) + records(txs)) == if txs.len() == 0 {
            Err::<Seq<u8>, ServiceError>(ServiceError::BlockEmpty)
        } else {
            Ok::<Seq<u8>, ServiceError>(txs.last())
        },
{
    let head = block_file(block);
    let file = head + records(txs);
    assert(file.subrange(0, 2) =~= size_field(block.len() as int));
    lemma_size_field_value(block.len() as int, file, 0);
    if txs.len() == 0 {
        assert(file =~= head);
    } else {
        let t = txs.last();
        let init = txs.drop_last();
        lemma_records_push(init, t);
        assert(init.push(t) =~= txs);
        let before = head + records(init);
        assert(file =~= before + record(t));
        let n = file.len() as int;
        assert(n == before.len() + t.len() + 4);
        assert(file.subrange(n - 2, n) =~= size_field(t.len() as int));
        lemma_field_reads_back(file, n - 2, t.len() as int);
        assert(file.subrange(n - 2 - t.len(), n - 2) =~= t);
        assert(before.len() >= head.len());
    }
}

/// The record that starts where the file ended before an append holds the
/// first transaction of that append.
pub proof fn lemma_transaction_at_append(file: Seq<u8>, txs: Seq<Seq<u8>>)
    requires
        txs.len() > 0,
        txs[0].len() <= 65535,
    ensures
        transaction_at(file + records(txs), file.len() as int) == Some(txs[0]),
{
    let whole = file + records(txs);
    lemma_first_record(file, txs);
    lemma_field_reads_back(whole, file.len() as int, txs[0].len() as int);
}

} // verus!

verus! {

/// The records appended to a block file by a series of requests, one batch
/// of transactions per request, in the order of the requests.
pub open spec fn appended(batches: Seq<Seq<Seq<u8>>>) -> Seq<u8>
    decreases batches.len(),
{
    if batches.len() == 0 {
        seq![]
    } else {
        records(batches[0]) + appended(batches.drop_first())
    }
}

/// Every batch of a series fits the size field.
pub open spec fn all_batches_fit(batches: Seq<Seq<Seq<u8>>>, limit: int) -> bool {
    forall|j: int| 0 <= j < batches.len() ==> all_fit(#[trigger] batches[j], limit)
}

/// The records of a series of batches are the records of all their
/// transactions, in order, and all of them fit when every batch does.
pub proof fn lemma_appended_records(batches: Seq<Seq<Seq<u8>>>, limit: int)
    ensures
        appended(batches) == records(batches.flatten()),
        all_batches_fit(batches, limit) ==> all_fit(batches.flatten(), limit),
    decreases batches.len(),
{
    if batches.len() == 0 {
        assert(batches.flatten() =~= Seq::<Seq<u8>>::empty());
    } else {
        let rest = batches.drop_first();
        lemma_appended_records(rest, limit);
        lemma_records_concat(batches[0], rest.flatten());
        assert(batches.flatten() == batches[0] + rest.flatten());
        if all_batches_fit(batches, limit) {
            assert(all_batches_fit(rest, limit)) by {
                assert forall|j: int| 0 <= j < rest.len() implies all_fit(#[trigger] rest[j], limit) by {
                    assert(rest[j] == batches[j + 1]);
                }
            }
            let f = batches.flatten();
            assert forall|i: int| 0 <= i < f.len() implies #[trigger] f[i].len() <= limit by {
                assert(all_fit(batches[0], limit));
                if i < batches[0].len() {
                    assert(f[i] == batches[0][i]);
                } else {
                    assert(f[i] == rest.flatten()[i - batches[0].len()]);
                }
            }
        }
    }
}

/// Reading every transaction of a block file after a series of requests
/// appended batches to it gives all their transactions, request by request
/// and in order within each request.
pub proof fn lemma_all_after_appends(block: Seq<u8>, batches: Seq<Seq<Seq<u8>>>)
    requires
        block.len() <= 65535,
        all_batches_fit(batches, 65535),
    ensures
        block_transactions(block_file(block) + appended(batches)) == Some(batches.flatten()),
{
    lemma_appended_records(batches, 65535);
    lemma_block_file_read_back(block, batches.flatten());
}

/// Reading the block of a block file looks only at the block's own size
/// field and bytes: whatever was appended after it, the block comes back.
pub proof fn lemma_block_read_back_any_tail(block: Seq<u8>, rest: Seq<u8>)
    requires
        block.len() <= 65535,
    ensures
        block_payload(block_file(block) + rest) == Some(block),
{
    let file = block_file(block) + rest;
    assert(file.subrange(0, 2) =~= size_field(block.len() as int));
    lemma_field_reads_back(file, 0, block.len() as int);
    assert(file.subrange(2, 2int + block.len()) =~= block);
}

/// The last transaction of a block file after a series of appends is the
/// last transaction of the last non-empty append.
pub proof fn lemma_last_after_appends(block: Seq<u8>, earlier: Seq<Seq<u8>>, copies: Seq<Seq<u8>>)
    requires
        block.len() <= 65533 || block.len() == 65536,
        all_fit(earlier, 65535),
        all_fit(copies, 65535),
        copies.len() > 0,
    ensures
        last_transaction(block_file(block) + records(earlier) + records(copies))
            == Ok::<Seq<u8>, ServiceError>(copies.last()),
{
    lemma_records_concat(earlier, copies);
    let all = earlier + copies;
    assert(all_fit(all, 65535)) by {
        assert forall|i: int| 0 <= i < all.len() implies #[trigger] all[i].len() <= 65535 by {
            if i < earlier.len() {
                assert(all[i] == earlier[i]);
            } else {
                assert(all[i] == copies[i - earlier.len()]);
            }
        }
    }
    lemma_block_file_last(block, all);
    assert(all.last() == copies.last());
    assert(block_file(block) + records(earlier) + records(copies) == block_file(block) + records(all)) by {
        assert(block_file(block) + records(earlier) + records(copies) =~= block_file(block) + (records(earlier) + records(copies)));
    }
}

} // verus!
