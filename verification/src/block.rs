//! What the service decides when it adds and lists blocks.
//!
//! The block store maps a block's public key to the id of the file that
//! holds it.  Ids are UUIDs in their hyphenated text form.
use vstd::prelude::*;
use itertools::Itertools;
use crate::btree::{BTree, entries_of, key_bytes, lookup};
use crate::blockfile::{block_file, block_file_bytes, block_payload, lemma_block_read_back_any_tail, lemma_bytes_deep_view};
use crate::transaction::block_id_outcome;
use vstd::utf8::{decode_utf8, valid_utf8};
use crate::codec::{bytes_lt, MAX_PAYLOAD};
use crate::error::{ServiceError, StoreError};

verus! {

/// A lowercase hexadecimal digit.
pub open spec fn is_lower_hex(b: u8) -> bool {
    (48 <= b <= 57) || (97 <= b <= 102)
}

/// The positions of the hyphens in the hyphenated text form of a UUID.
pub open spec fn is_hyphen_position(i: int) -> bool {
    i == 8 || i == 13 || i == 18 || i == 23
}

/// The hyphenated lowercase text form of a UUID, such as
/// `67e55044-10b1-426f-9247-bb680e5fe0c8`.
pub open spec fn uuid_text(s: Seq<u8>) -> bool {
    &&& s.len() == 36
    &&& forall|i: int| 0 <= i < 36 ==> if is_hyphen_position(i) {
        #[trigger] s[i] == 45u8
    } else {
        is_lower_hex(s[i])
    }
}

/// The number of hyphens (`-`) in `s`.
pub open spec fn hyphens(s: Seq<u8>) -> nat
    decreases s.len(),
{
    if s.len() == 0 {
        0
    } else {
        hyphens(s.drop_last()) + if s.last() == 45u8 { 1nat } else { 0nat }
    }
}

/// A file name that the service takes for a block file: it splits into
/// five parts at its hyphens.
pub open spec fn is_block_name(s: Seq<u8>) -> bool {
    hyphens(s) == 4
}

/// `Uuid::now_v7()` in its hyphenated text form (`to_string`): a fresh id
/// built from the clock and random bits.  Only its shape is promised.
#[verifier::external_body]
fn new_block_id() -> (id: Vec<u8>)
    ensures
        uuid_text(id@),
{
    uuid::Uuid::now_v7().to_string().into_bytes()
}

/// `Itertools::sorted` collected into a vector: the same names, in
/// ascending byte order (the order of `Vec<u8>`).
#[verifier::external_body]
fn sort_names(names: Vec<Vec<u8>>) -> (r: Vec<Vec<u8>>)
    ensures
        r.deep_view().to_multiset() == names.deep_view().to_multiset(),
        forall|i: int, j: int| 0 <= i < j < r.deep_view().len()
            ==> !bytes_lt(#[trigger] r.deep_view()[j], #[trigger] r.deep_view()[i]),
{
    names.into_iter().sorted().collect()
}

/// The number of hyphens in a file name.
pub fn hyphen_count(name: &[u8]) -> (r: usize)
    ensures
        r == hyphens(name@),
{
    let mut count: usize = 0;
    let mut i: usize = 0;
    while i < name.len()
        invariant
            i <= name@.len(),
            count == hyphens(name@.subrange(0, i as int)),
            count <= i,
        decreases name@.len() - i,
    {
        assert(name@.subrange(0, i + 1).drop_last() =~= name@.subrange(0, i as int));
        if name[i] == 45u8 {
            count = count + 1;
        }
        i = i + 1;
    }
    assert(name@.subrange(0, name@.len() as int) =~= name@);
    count
}

/// The file name of the newest block among the names of a directory: of
/// the names that split into five parts at their hyphens, the greatest in
/// byte order.  `None` when no name qualifies.
pub fn last_block_name(names: Vec<Vec<u8>>) -> (r: Option<Vec<u8>>)
    ensures
        r is None <==> !exists|i: int| 0 <= i < names.deep_view().len() && is_block_name(#[trigger] names.deep_view()[i]),
        r matches Some(n) ==> newest_block_name(names.deep_view(), n@),
{
    let ghost all = names.deep_view();
    let mut rest = names;
    let mut candidates: Vec<Vec<u8>> = Vec::new();
    while rest.len() > 0
        invariant
            rest.deep_view() == all.subrange(0, rest.deep_view().len() as int),
            rest.deep_view().len() <= all.len(),
            forall|x: Seq<u8>| #[trigger] candidates.deep_view().contains(x) ==> all.contains(x) && is_block_name(x),
            forall|i: int| rest.deep_view().len() <= i < all.len() && is_block_name(#[trigger] all[i])
                ==> candidates.deep_view().contains(all[i]),
        decreases rest.deep_view().len(),
    {
        let ghost before_rest = rest.deep_view();
        let ghost before_cand = candidates.deep_view();
        let name = rest.pop().unwrap();
        proof {
            lemma_bytes_deep_view(&name);
            assert(rest.deep_view() =~= before_rest.drop_last());
            assert(name@ == before_rest.last());
            assert(before_rest.last() == all[before_rest.len() - 1]);
        }
        if hyphen_count(name.as_slice()) == 4 {
            let ghost idx = before_rest.len() - 1;
            proof {
                assert(is_block_name(all[idx]));
                assert(all.contains(all[idx]));
            }
            candidates.push(name);
            proof {
                assert(candidates.deep_view() =~= before_cand.push(all[before_rest.len() - 1]));
                assert forall|x: Seq<u8>| #[trigger] candidates.deep_view().contains(x) implies all.contains(x) && is_block_name(x) by {
                    let idx = before_rest.len() - 1;
                    if x != all[idx] {
                        let k = choose|k: int| 0 <= k < candidates.deep_view().len() && candidates.deep_view()[k] == x;
                        assert(k < before_cand.len());
                        assert(before_cand[k] == x);
                        assert(before_cand.contains(x));
                    }
                }
                assert forall|i: int| rest.deep_view().len() <= i < all.len() && is_block_name(#[trigger] all[i])
                    implies candidates.deep_view().contains(all[i]) by {
                    if i == before_rest.len() - 1 {
                        assert(candidates.deep_view()[before_cand.len() as int] == all[i]);
                    } else {
                        let k = choose|k: int| 0 <= k < before_cand.len() && before_cand[k] == all[i];
                        assert(candidates.deep_view()[k] == all[i]);
                    }
                }
            }
        }
    }
    let ghost cand = candidates.deep_view();
    let mut sorted = sort_names(candidates);
    proof {
        broadcast use vstd::seq_lib::group_to_multiset_ensures;
        assert forall|x: Seq<u8>| #[trigger] sorted.deep_view().contains(x) <==> cand.contains(x) by {
            assert(sorted.deep_view().to_multiset().count(x) == cand.to_multiset().count(x));
        }
    }
    let ghost sv = sorted.deep_view();
    match sorted.pop() {
        None => {
            proof {
                assert forall|i: int| 0 <= i < all.len() implies !is_block_name(#[trigger] all[i]) by {
                    if is_block_name(all[i]) {
                        assert(cand.contains(all[i]));
                        assert(sv.contains(all[i]));
                    }
                }
            }
            None
        },
        Some(n) => {
            proof {
                lemma_bytes_deep_view(&n);
                assert(n@ == sv.last());
                assert(sv.contains(n@));
                assert(all.contains(n@) && is_block_name(n@));
                let k = choose|k: int| 0 <= k < all.len() && all[k] == n@;
                assert(is_block_name(all[k]));
                assert forall|m: Seq<u8>| #[trigger] all.contains(m) && is_block_name(m) implies !bytes_lt(n@, m) by {
                    let i = choose|i: int| 0 <= i < all.len() && all[i] == m;
                    assert(is_block_name(all[i]));
                    assert(cand.contains(m));
                    assert(sv.contains(m));
                    let j = choose|j: int| 0 <= j < sv.len() && sv[j] == m;
                    if j < sv.len() - 1 {
                        assert(!bytes_lt(sv[sv.len() - 1], sv[j]));
                    } else {
                        crate::btree::lemma_bytes_lt_irreflexive(m);
                    }
                }
            }
            Some(n)
        },
    }
}

/// Adds a block: gives it a fresh id and does what [`register_block`]
/// does with that id.
pub fn add_block(db_block: &mut BTree, public_key: String, block: &[u8]) -> (r: Result<(Vec<u8>, Vec<u8>), ServiceError>)
    ensures
        final(db_block).path() == old(db_block).path(),
        r matches Ok((id, file)) ==> {
            &&& public_key@.len() > 0
            &&& lookup(old(db_block)@, public_key@) is None
            &&& uuid_text(id@)
            &&& final(db_block)@ == old(db_block)@.insert(key_bytes(public_key@), id@)
            &&& block@.len() <= MAX_PAYLOAD
            &&& file@ == block_file(block@)
        },
        r matches Err(e) ==> {
            ||| e == ServiceError::PublicKeyEmpty
            ||| e == ServiceError::BlockAlreadyExists
            ||| e == ServiceError::BlockTooLarge
            ||| e == ServiceError::Store(StoreError::Storage)
        },
        r matches Err(ServiceError::PublicKeyEmpty) <==> public_key@.len() == 0,
        public_key@.len() == 0 ==> final(db_block)@ == old(db_block)@,
        r matches Err(ServiceError::BlockAlreadyExists) ==> {
            &&& public_key@.len() > 0
            &&& lookup(old(db_block)@, public_key@) is Some
            &&& final(db_block)@ == old(db_block)@
        },
        r matches Err(ServiceError::BlockTooLarge) ==> {
            &&& public_key@.len() > 0
            &&& lookup(old(db_block)@, public_key@) is None
            &&& block@.len() > MAX_PAYLOAD
            &&& exists|id: Seq<u8>| uuid_text(id)
                && final(db_block)@ == old(db_block)@.insert(key_bytes(public_key@), id)
        },
        public_key@.len() > 0 && lookup(old(db_block)@, public_key@) is Some ==> (r matches Err(e) && (
            e == ServiceError::BlockAlreadyExists || e == ServiceError::Store(StoreError::Storage))),
        public_key@.len() > 0 && lookup(old(db_block)@, public_key@) is None && block@.len() > MAX_PAYLOAD
            ==> (r matches Err(e) && (e == ServiceError::BlockTooLarge || e == ServiceError::Store(StoreError::Storage))),
        public_key@.len() > 0 && lookup(old(db_block)@, public_key@) is None && block@.len() <= MAX_PAYLOAD
            ==> r is Ok || r == Err::<(Vec<u8>, Vec<u8>), ServiceError>(ServiceError::Store(StoreError::Storage)),
{
    let id = new_block_id();
    let r = register_block(db_block, public_key, block, id);
    proof {
        if r matches Err(ServiceError::BlockTooLarge) {
            assert(uuid_text(id@) && db_block@ == old(db_block)@.insert(key_bytes(public_key@), id@));
        }
    }
    r
}

/// Adds a block under the id `id`: refuses an empty public key and a key
/// already stored; otherwise stores `id` under the key and lays out the
/// block file for the encoded block.  The id is stored before the size of
/// the block is checked, so a block that is too large is refused with its
/// id already stored.
pub fn register_block(db_block: &mut BTree, public_key: String, block: &[u8], id: Vec<u8>) -> (r: Result<(Vec<u8>, Vec<u8>), ServiceError>)
    ensures
        final(db_block).path() == old(db_block).path(),
        r matches Ok((rid, file)) ==> {
            &&& public_key@.len() > 0
            &&& lookup(old(db_block)@, public_key@) is None
            &&& rid@ == id@
            &&& final(db_block)@ == old(db_block)@.insert(key_bytes(public_key@), id@)
            &&& block@.len() <= MAX_PAYLOAD
            &&& file@ == block_file(block@)
        },
        r matches Err(e) ==> e == ServiceError::Store(StoreError::Storage) || (
            register_refuses(old(db_block)@, public_key@, block@.len() as int)
            && e == register_refusal(old(db_block)@, public_key@, block@.len() as int)),
        r matches Err(e) ==> (e != ServiceError::Store(StoreError::Storage) ==> final(db_block)@ == if e
            == ServiceError::BlockTooLarge {
            old(db_block)@.insert(key_bytes(public_key@), id@)
        } else {
            old(db_block)@
        }),
        r is Ok ==> !register_refuses(old(db_block)@, public_key@, block@.len() as int),
        public_key@.len() == 0 ==> r == Err::<(Vec<u8>, Vec<u8>), ServiceError>(ServiceError::PublicKeyEmpty),
{
    if public_key.as_str().is_empty() {
        return Err(ServiceError::PublicKeyEmpty);
    }
    existing_block_answer(db_block.get(public_key.clone()))?;
    let stored = id.clone();
    assert(stored@ == id@);
    let inserted = db_block.insert(public_key, stored);
    finish_registration(id, inserted, block)
}

/// The answer to a new block while it is checked, given what the block
/// store answered for its public key: a key already stored refuses it.
pub fn existing_block_answer(found: Result<Option<Vec<u8>>, StoreError>) -> (r: Result<(), ServiceError>)
    ensures
        r == match found {
            Ok(Some(_)) => Err(ServiceError::BlockAlreadyExists),
            Ok(None) => Ok(()),
            Err(e) => Err(ServiceError::Store(e)),
        },
{
    match found {
        Ok(Some(_)) => Err(ServiceError::BlockAlreadyExists),
        Ok(None) => Ok(()),
        Err(e) => Err(ServiceError::Store(e)),
    }
}

/// The answer to a new block under the id `id`, given what the block store
/// answered to storing the id: the block is then checked for size and its
/// file laid out.
pub fn finish_registration(id: Vec<u8>, inserted: Result<(), StoreError>, block: &[u8]) -> (r: Result<(Vec<u8>, Vec<u8>), ServiceError>)
    ensures
        match inserted {
            Err(e) => r == Err::<(Vec<u8>, Vec<u8>), ServiceError>(ServiceError::Store(e)),
            Ok(()) => if block@.len() > MAX_PAYLOAD {
                r == Err::<(Vec<u8>, Vec<u8>), ServiceError>(ServiceError::BlockTooLarge)
            } else {
                r matches Ok((rid, file)) && rid == id && file@ == block_file(block@)
            },
        },
{
    match inserted {
        Ok(()) => {},
        Err(e) => return Err(ServiceError::Store(e)),
    }
    let file = block_file_bytes(block)?;
    Ok((id, file))
}

/// Whether a new block is refused, given the block store, its public key
/// and the size of its encoding.
pub open spec fn register_refuses(blocks: Map<Seq<u8>, Seq<u8>>, key: Seq<char>, size: int) -> bool {
    key.len() == 0 || lookup(blocks, key) is Some || size > MAX_PAYLOAD
}

/// The answer to a refused new block: the first of its checks that fails.
pub open spec fn register_refusal(blocks: Map<Seq<u8>, Seq<u8>>, key: Seq<char>, size: int) -> ServiceError {
    if key.len() == 0 {
        ServiceError::PublicKeyEmpty
    } else if lookup(blocks, key) is Some {
        ServiceError::BlockAlreadyExists
    } else {
        ServiceError::BlockTooLarge
    }
}

/// The number of blocks, as the 32-bit count that the service reports
/// (the low 32 bits of the number of entries).
pub fn block_count(db_block: &BTree) -> (r: Result<u32, ServiceError>)
    ensures
        r matches Err(e) ==> e == ServiceError::Store(StoreError::Storage),
        r matches Ok(n) ==> db_block@.dom().finite() && n == db_block@.dom().len() as u32,
{
    count_answer(db_block.len())
}

/// The block count reported, given the number of entries that the block
/// store answered: its low 32 bits.
pub fn count_answer(n: Result<usize, StoreError>) -> (r: Result<u32, ServiceError>)
    ensures
        r == match n {
            Ok(n) => Ok(n as u32),
            Err(e) => Err(ServiceError::Store(e)),
        },
{
    match n {
        Ok(n) => Ok(n as u32),
        Err(e) => Err(ServiceError::Store(e)),
    }
}

/// The values of a sorted listing, in order.
pub open spec fn listed_values(es: Seq<(Seq<u8>, Seq<u8>)>) -> Seq<Seq<u8>> {
    es.map_values(|e: (Seq<u8>, Seq<u8>)| e.1)
}

/// The file ids of every block, in ascending byte order of the public keys.
pub fn chain_block_ids(db_block: &BTree) -> (r: Result<Vec<Vec<u8>>, ServiceError>)
    ensures
        r matches Err(e) ==> e == ServiceError::Store(StoreError::Storage),
        r matches Ok(ids) ==> exists|es: Seq<(Seq<u8>, Seq<u8>)>|
            entries_of(db_block@, es) && ids.deep_view() == listed_values(es),
{
    let listing = db_block.iter();
    let ghost listed = match &listing {
        Ok(es) => es.deep_view(),
        Err(_) => Seq::<(Seq<u8>, Seq<u8>)>::empty(),
    };
    let r = ids_from_listing(listing);
    proof {
        if r is Ok {
            assert(entries_of(db_block@, listed));
        }
    }
    r
}

/// The file ids of every block, given the listing of the block store that
/// it answered: the values of the listing, in order.
pub fn ids_from_listing(listing: Result<Vec<(Vec<u8>, Vec<u8>)>, StoreError>) -> (r: Result<Vec<Vec<u8>>, ServiceError>)
    ensures
        match listing {
            Ok(es) => (r matches Ok(ids) && ids.deep_view() == listed_values(es.deep_view())),
            Err(e) => r == Err::<Vec<Vec<u8>>, ServiceError>(ServiceError::Store(e)),
        },
{
    let es = match listing {
        Ok(es) => es,
        Err(e) => return Err(ServiceError::Store(e)),
    };
    let ghost listed = es.deep_view();
    let mut ids: Vec<Vec<u8>> = Vec::new();
    let mut i: usize = 0;
    while i < es.len()
        invariant
            i <= es@.len(),
            listed == es.deep_view(),
            ids.deep_view() == listed_values(listed).subrange(0, i as int),
        decreases es@.len() - i,
    {
        let v: Vec<u8> = es[i].1.clone();
        proof {
            lemma_bytes_deep_view(&v);
            lemma_bytes_deep_view(&es@[i as int].1);
            assert(v@ == es@[i as int].1@);
            assert(listed[i as int].1 == v@);
        }
        let ghost before = ids.deep_view();
        ids.push(v);
        assert(ids.deep_view() =~= before.push(v@));
        assert(listed_values(listed).subrange(0, i + 1) =~= listed_values(listed).subrange(0, i as int).push(v@));
        i = i + 1;
    }
    assert(listed_values(listed).subrange(0, es@.len() as int) =~= listed_values(listed));
    Ok(ids)
}

/// Counting the hyphens of a UUID's text form: those before position `i`.
proof fn lemma_uuid_hyphens_before(s: Seq<u8>, i: int)
    requires
        uuid_text(s),
        0 <= i <= 36,
    ensures
        hyphens(s.subrange(0, i)) == (if i > 8 { 1nat } else { 0nat }) + (if i > 13 { 1nat } else { 0nat })
            + (if i > 18 { 1nat } else { 0nat }) + (if i > 23 { 1nat } else { 0nat }),
    decreases i,
{
    if i > 0 {
        lemma_uuid_hyphens_before(s, i - 1);
        assert(s.subrange(0, i).drop_last() =~= s.subrange(0, i - 1));
        assert(s.subrange(0, i).last() == s[i - 1]);
        if !is_hyphen_position(i - 1) {
            assert(is_lower_hex(s[i - 1]));
        } else {
            assert(s[i - 1] == 45u8);
        }
    } else {
        assert(s.subrange(0, 0).len() == 0);
    }
}

/// The id given to a new block names a file that the service takes for a
/// block file: its text form has exactly four hyphens.
pub proof fn lemma_block_id_is_block_name(id: Seq<u8>)
    requires
        uuid_text(id),
    ensures
        is_block_name(id),
{
    lemma_uuid_hyphens_before(id, 36);
    assert(id.subrange(0, 36) =~= id);
}

/// The block store after a series of writes, each storing a value under a
/// text key, in order.
pub open spec fn writes(m: Map<Seq<u8>, Seq<u8>>, later: Seq<(Seq<char>, Seq<u8>)>) -> Map<Seq<u8>, Seq<u8>>
    decreases later.len(),
{
    if later.len() == 0 {
        m
    } else {
        writes(m, later.drop_last()).insert(key_bytes(later.last().0), later.last().1)
    }
}

/// Writes under other keys leave what a key holds as it was.
pub proof fn lemma_writes_keep(m: Map<Seq<u8>, Seq<u8>>, key: Seq<char>, later: Seq<(Seq<char>, Seq<u8>)>)
    requires
        forall|i: int| 0 <= i < later.len() ==> (#[trigger] later[i]).0 != key,
    ensures
        lookup(writes(m, later), key) == lookup(m, key),
    decreases later.len(),
{
    if later.len() > 0 {
        let init = later.drop_last();
        assert forall|i: int| 0 <= i < init.len() implies (#[trigger] init[i]).0 != key by {
            assert(init[i] == later[i]);
        }
        lemma_writes_keep(m, key, init);
        assert(later.last() == later[later.len() - 1]);
        crate::btree::lemma_read_after_write(writes(m, init), later.last().0, later.last().1, key);
    }
}

/// A block added under a public key is found again after any later blocks
/// stored under other keys, and its file gives back the block, whatever
/// bytes were appended to it.
pub proof fn lemma_block_found_after_add(
    blocks: Map<Seq<u8>, Seq<u8>>,
    key: Seq<char>,
    id: Seq<u8>,
    later: Seq<(Seq<char>, Seq<u8>)>,
    block: Seq<u8>,
    rest: Seq<u8>,
)
    requires
        forall|i: int| 0 <= i < later.len() ==> (#[trigger] later[i]).0 != key,
        block.len() <= 65535,
    ensures
        block_id_outcome(writes(blocks.insert(key_bytes(key), id), later), key) == Ok::<Seq<u8>, ServiceError>(id),
        block_payload(block_file(block) + rest) == Some(block),
{
    lemma_writes_keep(blocks.insert(key_bytes(key), id), key, later);
    crate::btree::lemma_read_after_write(blocks, key, id, key);
    lemma_block_read_back_any_tail(block, rest);
}

/// The name that [`last_block_name`] gives for the names of a directory.
pub open spec fn newest_block_name(names: Seq<Seq<u8>>, n: Seq<u8>) -> bool {
    &&& names.contains(n)
    &&& is_block_name(n)
    &&& forall|m: Seq<u8>| #[trigger] names.contains(m) && is_block_name(m) ==> !bytes_lt(n, m)
}

/// When the file of the block added last has a name that sorts after every
/// other block file name, that name is the one chosen as the newest, and
/// its file gives back the block, whatever bytes were appended to it.
pub proof fn lemma_newest_block_read_back(names: Seq<Seq<u8>>, id: Seq<u8>, n: Seq<u8>, block: Seq<u8>, rest: Seq<u8>)
    requires
        names.contains(id),
        uuid_text(id),
        forall|m: Seq<u8>| #[trigger] names.contains(m) && is_block_name(m) && m != id ==> bytes_lt(m, id),
        newest_block_name(names, n),
        block.len() <= 65535,
    ensures
        n == id,
        block_payload(block_file(block) + rest) == Some(block),
{
    lemma_block_id_is_block_name(id);
    if n != id {
        assert(bytes_lt(n, id));
        assert(!bytes_lt(n, id));
    }
    lemma_block_read_back_any_tail(block, rest);
}

/// The listing of the whole chain has one id per stored block, as many as
/// the block count reports, in ascending byte order of the keys; each id is
/// the one that looking up its key finds.
pub proof fn lemma_chain_matches_count_and_lookups(m: Map<Seq<u8>, Seq<u8>>, es: Seq<(Seq<u8>, Seq<u8>)>)
    requires
        entries_of(m, es),
    ensures
        m.dom().finite(),
        listed_values(es).len() == m.dom().len(),
        m.dom().len() <= u32::MAX ==> listed_values(es).len() == (m.dom().len() as u32) as int,
        forall|i: int, j: int| 0 <= i < j < es.len() ==> bytes_lt(#[trigger] es[i].0, #[trigger] es[j].0),
        forall|i: int| 0 <= i < es.len() && valid_utf8(#[trigger] es[i].0) ==>
            block_id_outcome(m, decode_utf8(es[i].0)) == Ok::<Seq<u8>, ServiceError>(listed_values(es)[i]),
{
    crate::btree::lemma_entries_len(m, es);
    assert forall|i: int| 0 <= i < es.len() && valid_utf8(#[trigger] es[i].0) implies
        block_id_outcome(m, decode_utf8(es[i].0)) == Ok::<Seq<u8>, ServiceError>(listed_values(es)[i]) by {
        vstd::utf8::decode_utf8_encode_utf8(es[i].0);
        assert(m.contains_key(es[i].0));
    }
}

} // verus!
