//! An ordered map from text keys to byte values, kept on disk by `sled`.
use vstd::prelude::*;
use vstd::utf8::{decode_utf8, encode_utf8, valid_utf8};
use crate::codec::bytes_lt;
use crate::error::StoreError;

verus! {

#[verifier::external_type_specification]
#[verifier::external_body]
pub struct ExSledDb(sled::Db);

#[verifier::external_type_specification]
#[verifier::external_body]
pub struct ExSledError(sled::Error);

/// What a `sled` database holds: its map from key bytes to value bytes.
pub uninterp spec fn sled_contents(db: sled::Db) -> Map<Seq<u8>, Seq<u8>>;

/// The path that a `sled` database was opened at.
pub uninterp spec fn sled_path(db: sled::Db) -> Seq<char>;

/// `sled::open`: opens (or creates) the database stored at `path`.  The
/// database is the one at `path`; what it holds is whatever is stored
/// there, so nothing is promised of its contents.
#[verifier::external_body]
fn sled_open(path: &str) -> (r: Result<sled::Db, sled::Error>)
    ensures
        r matches Ok(db) ==> sled_path(db) == path@,
{
    sled::open(path)
}

/// `Tree::insert`: on success the database maps `key` to `value` and is
/// otherwise unchanged.  Nothing is promised of the contents after a failure.
/// The database stays the one it was (a write does not reopen it).
#[verifier::external_body]
fn sled_insert(db: &mut sled::Db, key: &[u8], value: Vec<u8>) -> (r: Result<(), sled::Error>)
    ensures
        r is Ok ==> sled_contents(*final(db)) == sled_contents(*old(db)).insert(key@, value@),
        sled_path(*final(db)) == sled_path(*old(db)),
{
    match db.insert(key, value) {
        Ok(_) => Ok(()),
        Err(e) => Err(e),
    }
}

/// `Tree::get`: on success, the value stored under `key`, or `None` when
/// there is none.  A read leaves the contents as they are.
#[verifier::external_body]
fn sled_get(db: &sled::Db, key: &[u8]) -> (r: Result<Option<Vec<u8>>, sled::Error>)
    ensures
        r matches Ok(v) ==> match v {
            Some(x) => sled_contents(*db).contains_key(key@) && sled_contents(*db)[key@] == x@,
            None => !sled_contents(*db).contains_key(key@),
        },
{
    match db.get(key) {
        Ok(Some(iv)) => Ok(Some(iv.to_vec())),
        Ok(None) => Ok(None),
        Err(e) => Err(e),
    }
}

/// `Tree::iter()` read to its end: on success, every entry exactly once, in
/// ascending byte order of the keys; the first error met otherwise.
#[verifier::external_body]
fn sled_entries(db: &sled::Db) -> (r: Result<Vec<(Vec<u8>, Vec<u8>)>, sled::Error>)
    ensures
        r matches Ok(es) ==> entries_of(sled_contents(*db), es.deep_view()),
{
    db.iter().map(|item| item.map(|(k, v)| (k.to_vec(), v.to_vec()))).collect()
}

/// `es` lists the entries of `m` in ascending byte order of the keys.
pub open spec fn entries_of(m: Map<Seq<u8>, Seq<u8>>, es: Seq<(Seq<u8>, Seq<u8>)>) -> bool {
    &&& forall|i: int, j: int| 0 <= i < j < es.len() ==> bytes_lt(#[trigger] es[i].0, #[trigger] es[j].0)
    &&& forall|i: int| 0 <= i < es.len() ==> m.contains_key(#[trigger] es[i].0) && m[es[i].0] == es[i].1
    &&& forall|k: Seq<u8>| #[trigger] m.contains_key(k) ==> exists|i: int| 0 <= i < es.len() && #[trigger] es[i].0 == k
}

/// The bytes under which a text key is stored.
pub open spec fn key_bytes(key: Seq<char>) -> Seq<u8> {
    encode_utf8(key)
}

/// The value stored under the text key `key`, if any.
pub open spec fn lookup(m: Map<Seq<u8>, Seq<u8>>, key: Seq<char>) -> Option<Seq<u8>> {
    if m.contains_key(key_bytes(key)) {
        Some(m[key_bytes(key)])
    } else {
        None
    }
}

/// `k` is the greatest key of `m` in byte order.
pub open spec fn greatest_entry(m: Map<Seq<u8>, Seq<u8>>, k: Seq<u8>) -> bool {
    &&& m.contains_key(k)
    &&& forall|other: Seq<u8>| #[trigger] m.contains_key(other) ==> other == k || bytes_lt(other, k)
}

/// An ordered key-value store whose keys are text.
pub struct BTree {
    db: sled::Db,
}

impl View for BTree {
    type V = Map<Seq<u8>, Seq<u8>>;

    closed spec fn view(&self) -> Map<Seq<u8>, Seq<u8>> {
        sled_contents(self.db)
    }
}

impl BTree {
    /// The path of the store on disk.
    pub closed spec fn path(&self) -> Seq<char> {
        sled_path(self.db)
    }

    /// Opens the store kept at `path`; what it holds is what is stored there.
    pub fn new(path: &str) -> (r: Result<BTree, StoreError>)
        ensures
            r matches Err(e) ==> e == StoreError::Storage,
            r matches Ok(t) ==> t.path() == path@,
    {
        match sled_open(path) {
            Ok(db) => Ok(BTree { db }),
            Err(_) => Err(StoreError::Storage),
        }
    }

    /// Stores `value` under `key`, replacing any earlier value.
    pub fn insert(&mut self, key: String, value: Vec<u8>) -> (r: Result<(), StoreError>)
        ensures
            r matches Err(e) ==> e == StoreError::Storage,
            r is Ok ==> final(self)@ == old(self)@.insert(key_bytes(key@), value@),
            final(self).path() == old(self).path(),
    {
        let k: &[u8] = key.as_str().as_bytes();
        match sled_insert(&mut self.db, k, value) {
            Ok(()) => Ok(()),
            Err(_) => Err(StoreError::Storage),
        }
    }

    /// The value stored under `key`, if any.
    pub fn get(&self, key: String) -> (r: Result<Option<Vec<u8>>, StoreError>)
        ensures
            r matches Err(e) ==> e == StoreError::Storage,
            r matches Ok(v) ==> match v {
                Some(x) => lookup(self@, key@) == Some(x@),
                None => lookup(self@, key@) is None,
            },
    {
        let k: &[u8] = key.as_str().as_bytes();
        match sled_get(&self.db, k) {
            Ok(v) => Ok(v),
            Err(_) => Err(StoreError::Storage),
        }
    }

    /// The entry with the greatest key in byte order, with the key as text;
    /// `None` when the store is empty.
    pub fn get_last(&self) -> (r: Result<Option<(String, Vec<u8>)>, StoreError>)
        ensures
            r matches Ok(None) ==> self@.dom().is_empty(),
            r matches Ok(Some((k, v))) ==> greatest_entry(self@, key_bytes(k@)) && self@[key_bytes(k@)] == v@,
            r matches Err(StoreError::KeyNotUtf8) ==> exists|k: Seq<u8>| greatest_entry(self@, k) && !valid_utf8(k),
            self@.dom().is_empty() ==> r matches Ok(None) || r matches Err(StoreError::Storage),
            forall|k: Seq<u8>| #[trigger] greatest_entry(self@, k) ==> {
                &&& valid_utf8(k) ==> (r matches Ok(Some(_)) || r matches Err(StoreError::Storage))
                &&& !valid_utf8(k) ==> (r matches Err(StoreError::KeyNotUtf8) || r matches Err(StoreError::Storage))
            },
    {
        let listing = self.iter();
        let ghost ls = match &listing {
            Ok(es) => es.deep_view(),
            Err(_) => Seq::<(Seq<u8>, Seq<u8>)>::empty(),
        };
        let found = last_of_listing(listing);
        let ghost fk = match &found {
            Ok(Some(e)) => e.0@,
            _ => Seq::<u8>::empty(),
        };
        proof {
            if found is Ok {
                assert(entries_of(self@, ls));
                if found->Ok_0 is None {
                    assert forall|k: Seq<u8>| !#[trigger] self@.contains_key(k) by {
                        if self@.contains_key(k) {
                            assert(exists|i: int| 0 <= i < ls.len() && #[trigger] ls[i].0 == k);
                        }
                    }
                    assert(self@.dom() =~= Set::<Seq<u8>>::empty());
                } else {
                    let last = ls.len() - 1;
                    assert(ls[last].0 == fk);
                    assert(self@.contains_key(fk));
                    assert forall|other: Seq<u8>| #[trigger] self@.contains_key(other) implies other == fk
                        || bytes_lt(other, fk) by {
                        let i = choose|i: int| 0 <= i < ls.len() && #[trigger] ls[i].0 == other;
                        if i < last {
                            assert(bytes_lt(ls[i].0, ls[last].0));
                        }
                    }
                    assert forall|other: Seq<u8>| #[trigger] greatest_entry(self@, other) implies other == fk by {
                        if other != fk {
                            assert(bytes_lt(other, fk));
                            assert(bytes_lt(fk, other));
                            lemma_bytes_lt_asymmetric(fk, other);
                        }
                    }
                    if valid_utf8(fk) {
                        vstd::utf8::decode_utf8_encode_utf8(fk);
                    }
                }
            }
        }
        last_entry_from(found)
    }

    /// The number of entries.
    pub fn len(&self) -> (r: Result<usize, StoreError>)
        ensures
            r matches Err(e) ==> e == StoreError::Storage,
            r matches Ok(n) ==> self@.dom().finite() && n == self@.dom().len(),
    {
        let listing = self.iter();
        proof {
            if listing is Ok {
                lemma_entries_len(self@, listing->Ok_0.deep_view());
                assert(listing->Ok_0.deep_view().len() == listing->Ok_0@.len());
            }
        }
        count_entries(listing)
    }

    /// Every entry, in ascending byte order of the keys.
    pub fn iter(&self) -> (r: Result<Vec<(Vec<u8>, Vec<u8>)>, StoreError>)
        ensures
            r matches Err(e) ==> e == StoreError::Storage,
            r matches Ok(es) ==> entries_of(self@, es.deep_view()),
    {
        match sled_entries(&self.db) {
            Ok(es) => Ok(es),
            Err(_) => Err(StoreError::Storage),
        }
    }
}

/// The entry with the greatest key, given the listing that the store
/// answered (in ascending key order): its last entry, if any.
pub fn last_of_listing(listing: Result<Vec<(Vec<u8>, Vec<u8>)>, StoreError>) -> (r: Result<Option<(Vec<u8>, Vec<u8>)>, StoreError>)
    ensures
        match listing {
            Ok(es) => if es@.len() == 0 {
                r == Ok::<Option<(Vec<u8>, Vec<u8>)>, StoreError>(None)
            } else {
                r matches Ok(Some((k, v))) && (k@, v@) == es.deep_view().last()
            },
            Err(e) => r == Err::<Option<(Vec<u8>, Vec<u8>)>, StoreError>(e),
        },
{
    match listing {
        Ok(es) => {
            let ghost dv = es.deep_view();
            let mut es = es;
            let last = es.pop();
            proof {
                if last is Some {
                    let e = last->Some_0;
                    crate::blockfile::lemma_bytes_deep_view(&e.0);
                    crate::blockfile::lemma_bytes_deep_view(&e.1);
                    assert(dv.last() == dv[dv.len() - 1]);
                }
            }
            Ok(last)
        },
        Err(e) => Err(e),
    }
}

/// The greatest entry with its key as text, given the greatest entry that
/// the store answered: a key that is not UTF-8 is refused.
pub fn last_entry_from(found: Result<Option<(Vec<u8>, Vec<u8>)>, StoreError>) -> (r: Result<Option<(String, Vec<u8>)>, StoreError>)
    ensures
        match found {
            Ok(None) => r == Ok::<Option<(String, Vec<u8>)>, StoreError>(None),
            Ok(Some((k, v))) => if valid_utf8(k@) {
                r matches Ok(Some((s, rv))) && s@ == decode_utf8(k@) && rv == v
            } else {
                r == Err::<Option<(String, Vec<u8>)>, StoreError>(StoreError::KeyNotUtf8)
            },
            Err(e) => r == Err::<Option<(String, Vec<u8>)>, StoreError>(e),
        },
{
    match found {
        Ok(None) => Ok(None),
        Ok(Some((k, v))) => match crate::text::string_from_utf8(k) {
            Some(s) => Ok(Some((s, v))),
            None => Err(StoreError::KeyNotUtf8),
        },
        Err(e) => Err(e),
    }
}

/// The number of entries, given the listing that the store answered.
pub fn count_entries(listing: Result<Vec<(Vec<u8>, Vec<u8>)>, StoreError>) -> (r: Result<usize, StoreError>)
    ensures
        r == match listing {
            Ok(es) => Ok(es.len()),
            Err(e) => Err(e),
        },
{
    match listing {
        Ok(es) => Ok(es.len()),
        Err(e) => Err(e),
    }
}

/// A sorted listing of a map has as many entries as the map has keys.
pub proof fn lemma_entries_len(m: Map<Seq<u8>, Seq<u8>>, es: Seq<(Seq<u8>, Seq<u8>)>)
    requires
        entries_of(m, es),
    ensures
        m.dom().finite(),
        m.dom().len() == es.len(),
{
    let keys = es.map_values(|e: (Seq<u8>, Seq<u8>)| e.0);
    assert(m.dom() =~= keys.to_set()) by {
        assert forall|k: Seq<u8>| m.dom().contains(k) implies keys.to_set().contains(k) by {
            let i = choose|i: int| 0 <= i < es.len() && #[trigger] es[i].0 == k;
            assert(keys[i] == k);
        }
        assert forall|k: Seq<u8>| keys.to_set().contains(k) implies m.dom().contains(k) by {
            let i = choose|i: int| 0 <= i < keys.len() && keys[i] == k;
            assert(es[i].0 == k);
        }
    }
    assert(keys.no_duplicates()) by {
        assert forall|i: int, j: int| 0 <= i < keys.len() && 0 <= j < keys.len() && i != j implies keys[i] != keys[j] by {
            if i < j {
                assert(bytes_lt(es[i].0, es[j].0));
                lemma_bytes_lt_irreflexive(es[i].0);
            } else {
                assert(bytes_lt(es[j].0, es[i].0));
                lemma_bytes_lt_irreflexive(es[i].0);
            }
        }
    }
    keys.unique_seq_to_set();
}

/// Two byte strings never sort strictly before each other.
pub proof fn lemma_bytes_lt_asymmetric(a: Seq<u8>, b: Seq<u8>)
    ensures
        !(bytes_lt(a, b) && bytes_lt(b, a)),
    decreases a.len(),
{
    if a.len() > 0 && b.len() > 0 && a[0] == b[0] {
        lemma_bytes_lt_asymmetric(a.drop_first(), b.drop_first());
    }
}

/// No byte string sorts strictly before itself.
pub proof fn lemma_bytes_lt_irreflexive(a: Seq<u8>)
    ensures
        !bytes_lt(a, a),
    decreases a.len(),
{
    if a.len() > 0 {
        lemma_bytes_lt_irreflexive(a.drop_first());
    }
}

/// Different text keys are stored under different bytes.
pub proof fn lemma_key_bytes_injective(a: Seq<char>, b: Seq<char>)
    ensures
        key_bytes(a) == key_bytes(b) ==> a == b,
{
    vstd::utf8::encode_utf8_decode_utf8(a);
    vstd::utf8::encode_utf8_decode_utf8(b);
}

/// A read gives back what the last write under the same key wrote, and a
/// write leaves every other key as it was.
pub proof fn lemma_read_after_write(m: Map<Seq<u8>, Seq<u8>>, key: Seq<char>, value: Seq<u8>, other: Seq<char>)
    ensures
        lookup(m.insert(key_bytes(key), value), key) == Some(value),
        other != key ==> lookup(m.insert(key_bytes(key), value), other) == lookup(m, other),
{
    lemma_key_bytes_injective(key, other);
}

/// Writing under a key that is not stored yet adds one entry; writing under
/// a stored key keeps the number of entries.
pub proof fn lemma_len_after_write(m: Map<Seq<u8>, Seq<u8>>, key: Seq<char>, value: Seq<u8>)
    requires
        m.dom().finite(),
    ensures
        m.insert(key_bytes(key), value).dom().finite(),
        m.insert(key_bytes(key), value).dom().len() == if lookup(m, key) is Some {
            m.dom().len()
        } else {
            m.dom().len() + 1
        },
{
    if lookup(m, key) is Some {
        assert(m.insert(key_bytes(key), value).dom() =~= m.dom());
    }
}

/// The greatest entry after a write is the written one when its key sorts
/// after every stored key.
pub proof fn lemma_last_after_write(m: Map<Seq<u8>, Seq<u8>>, key: Seq<char>, value: Seq<u8>)
    requires
        forall|k: Seq<u8>| #[trigger] m.contains_key(k) ==> bytes_lt(k, key_bytes(key)),
    ensures
        greatest_entry(m.insert(key_bytes(key), value), key_bytes(key)),
{
}

} // verus!
