//! The engine over the sled embedded database.

use crate::engine::KvsEngine;
use crate::error::KvError;
use crate::Result;
use vstd::prelude::*;
use vstd::string::*;
use vstd::utf8::{encode_utf8, valid_utf8};

verus! {

/// The external type of a sled database.
#[verifier::external_type_specification]
#[verifier::external_body]
pub struct ExSledDb(sled::Db);

/// The external type of sled's errors.
#[verifier::external_type_specification]
#[verifier::external_body]
pub struct ExSledError(sled::Error);

/// Calls `sled::Tree::insert` on the database's default tree; the previous
/// value is dropped. Its outcome depends on the database's state, of which
/// nothing is stated.
#[verifier::external_body]
fn sled_insert(db: &sled::Db, key: &str, value: &[u8]) -> std::result::Result<(), sled::Error> {
    db.insert(key, value).map(|_| ())
}

/// Calls `sled::Tree::flush`; the number of bytes flushed is dropped. Its
/// outcome depends on the disk, of which nothing is stated.
#[verifier::external_body]
fn sled_flush(db: &sled::Db) -> std::result::Result<(), sled::Error> {
    db.flush().map(|_| ())
}

/// Calls `sled::Tree::get` and copies the value out. Its outcome depends on
/// the database's state, of which nothing is stated.
#[verifier::external_body]
fn sled_get(db: &sled::Db, key: &str) -> std::result::Result<Option<Vec<u8>>, sled::Error> {
    db.get(key).map(|v| v.map(|v| v.to_vec()))
}

/// Calls `sled::Tree::remove`; the result says whether a value was
/// present. Its outcome depends on the database's state, of which nothing
/// is stated.
#[verifier::external_body]
fn sled_remove(db: &sled::Db, key: &str) -> std::result::Result<bool, sled::Error> {
    db.remove(key).map(|v| v.is_some())
}

/// Calls `std::str::from_utf8`. Claimed, as its documentation says: it
/// succeeds exactly on valid UTF-8, and the text has the same bytes.
#[verifier::external_body]
fn utf8_str(b: &[u8]) -> (r: Option<&str>)
    ensures
        r is Some <==> valid_utf8(b@),
        r matches Some(s) ==> encode_utf8(s@) == b@,
{
    std::str::from_utf8(b).ok()
}

/// Calls `sled::Db::clone`, which shares the same database.
#[verifier::external_body]
fn sled_clone(db: &sled::Db) -> sled::Db {
    db.clone()
}

/// A stored value read back as text: bytes that are not UTF-8 fail with
/// `KvError::Utf8`.
pub fn decode_value(raw: &[u8]) -> (r: Result<String>)
    ensures
        match r {
            Ok(s) => valid_utf8(raw@) && encode_utf8(s@) == raw@,
            Err(e) => !valid_utf8(raw@) && e == KvError::Utf8,
        },
{
    match utf8_str(raw) {
        Some(s) => Ok(String::from_str(s)),
        None => Err(KvError::Utf8),
    }
}

/// The engine over a sled database.
pub struct SledKvsEngine {
    sled: sled::Db,
}

impl SledKvsEngine {
    /// The engine over an opened database.
    pub fn from_db(db: sled::Db) -> (e: Self)
        ensures
            e.spec_db() == db,
    {
        SledKvsEngine { sled: db }
    }

    pub closed spec fn spec_db(&self) -> sled::Db {
        self.sled
    }
}

impl Clone for SledKvsEngine {
    /// Another handle on the same database.
    fn clone(&self) -> Self {
        SledKvsEngine { sled: sled_clone(&self.sled) }
    }
}

/// What a set answers, given whether sled stored the value and, after a
/// stored value, whether the flush succeeded.
pub open spec fn spec_store_result(inserted: bool, flushed: bool) -> std::result::Result<(), KvError> {
    if !inserted || !flushed {
        Err(KvError::Sled)
    } else {
        Ok(())
    }
}

/// What a set answers, given sled's outcomes.
pub fn store_result(inserted: bool, flushed: bool) -> (r: Result<()>)
    ensures
        r == spec_store_result(inserted, flushed),
        r is Ok <==> inserted && flushed,
        r matches Err(e) ==> e == KvError::Sled,
{
    if !inserted || !flushed {
        Err(KvError::Sled)
    } else {
        Ok(())
    }
}

/// What a get answers, given whether the flush succeeded and, after it,
/// sled's answer (`None` for an error, `Some(None)` for an absent key,
/// `Some(Some(bytes))` for the stored bytes).
pub open spec fn spec_lookup_result(
    flushed: bool,
    fetched: Option<Option<Seq<u8>>>,
) -> std::result::Result<Option<Seq<u8>>, KvError> {
    if !flushed {
        Err(KvError::Sled)
    } else {
        match fetched {
            None => Err(KvError::Sled),
            Some(None) => Ok(None),
            Some(Some(raw)) => if valid_utf8(raw) {
                Ok(Some(raw))
            } else {
                Err(KvError::Utf8)
            },
        }
    }
}

pub open spec fn text_bytes(r: Result<Option<String>>) -> std::result::Result<Option<Seq<u8>>, KvError> {
    match r {
        Ok(Some(s)) => Ok(Some(encode_utf8(s@))),
        Ok(None) => Ok(None),
        Err(e) => Err(e),
    }
}

/// What a get answers, given sled's outcomes: the stored bytes read as
/// text.
pub fn lookup_result(flushed: bool, fetched: Option<Option<Vec<u8>>>) -> (r: Result<Option<String>>)
    ensures
        text_bytes(r) == spec_lookup_result(
            flushed,
            match fetched {
                None => None,
                Some(None) => Some(None),
                Some(Some(v)) => Some(Some(v@)),
            },
        ),
{
    if !flushed {
        return Err(KvError::Sled);
    }
    match fetched {
        None => Err(KvError::Sled),
        Some(None) => Ok(None),
        Some(Some(raw)) => match decode_value(raw.as_slice()) {
            Ok(s) => Ok(Some(s)),
            Err(e) => Err(e),
        },
    }
}

/// What a remove answers, given sled's outcome (`None` for an error,
/// `Some(present)` for whether the key was there) and, after a present key,
/// whether the flush succeeded: an absent key is `KvError::Log`.
pub open spec fn spec_removal_result(removed: Option<bool>, flushed: bool) -> std::result::Result<(), KvError> {
    match removed {
        None => Err(KvError::Sled),
        Some(false) => Err(KvError::Log),
        Some(true) => if flushed {
            Ok(())
        } else {
            Err(KvError::Sled)
        },
    }
}

/// What a remove answers, given sled's outcomes.
pub fn removal_result(removed: Option<bool>, flushed: bool) -> (r: Result<()>)
    ensures
        r == spec_removal_result(removed, flushed),
        r is Ok <==> removed == Some(true) && flushed,
        removed == Some(false) ==> r == Err::<(), KvError>(KvError::Log),
        removed != Some(false) ==> (r matches Err(e) ==> e == KvError::Sled),
{
    match removed {
        None => Err(KvError::Sled),
        Some(false) => Err(KvError::Log),
        Some(true) => if flushed {
            Ok(())
        } else {
            Err(KvError::Sled)
        },
    }
}

/// What sled's get gave, as plain values: `None` for an error.
pub open spec fn fetched_view(
    o: std::result::Result<Option<Vec<u8>>, sled::Error>,
) -> Option<Option<Seq<u8>>> {
    match o {
        Err(_) => None,
        Ok(None) => Some(None),
        Ok(Some(v)) => Some(Some(v@)),
    }
}

/// Whether sled's insert was called on the database with this key and
/// these value bytes, and whether it succeeded.
pub closed spec fn sled_insert_ran(db: sled::Db, key: Seq<char>, value: Seq<u8>, ok: bool) -> bool {
    exists|ks: &str, vs: &[u8], o: std::result::Result<(), sled::Error>|
        #[trigger] call_ensures(sled_insert, (&db, ks, vs), o) && ks@ == key && vs@ == value && (o is Ok)
            == ok
}

/// Whether sled's flush was called on the database, and whether it
/// succeeded.
pub closed spec fn sled_flush_ran(db: sled::Db, ok: bool) -> bool {
    exists|o: std::result::Result<(), sled::Error>|
        #[trigger] call_ensures(sled_flush, (&db,), o) && (o is Ok) == ok
}

/// Whether sled's get was called on the database with this key, and what it
/// gave (`None` for an error).
pub closed spec fn sled_get_ran(db: sled::Db, key: Seq<char>, fetched: Option<Option<Seq<u8>>>) -> bool {
    exists|ks: &str, o: std::result::Result<Option<Vec<u8>>, sled::Error>|
        #[trigger] call_ensures(sled_get, (&db, ks), o) && ks@ == key && fetched_view(o) == fetched
}

/// Whether sled's remove was called on the database with this key, and what
/// it gave (`None` for an error, else whether the key was present).
pub closed spec fn sled_remove_ran(db: sled::Db, key: Seq<char>, removed: Option<bool>) -> bool {
    exists|ks: &str, o: std::result::Result<bool, sled::Error>|
        #[trigger] call_ensures(sled_remove, (&db, ks), o) && ks@ == key && match o {
            Err(_) => removed is None,
            Ok(p) => removed == Some(p),
        }
}

impl KvsEngine for SledKvsEngine {
    /// Inserts the value's UTF-8 bytes under the key and, when that
    /// succeeded, flushes; answers as `store_result` does for those
    /// outcomes.
    fn set(&self, key: String, value: String) -> (r: Result<()>)
        ensures
            exists|inserted: bool|
                #[trigger] sled_insert_ran(self.spec_db(), key@, encode_utf8(value@), inserted) && (
                !inserted ==> r == Err::<(), KvError>(KvError::Sled)) && (inserted ==> exists|
                    flushed: bool,
                |
                    #[trigger] sled_flush_ran(self.spec_db(), flushed) && r == spec_store_result(
                        true,
                        flushed,
                    )),
    {
        let ks = key.as_str();
        let vs = value.as_str().as_bytes();
        let o = sled_insert(&self.sled, ks, vs);
        let inserted = o.is_ok();
        assert(sled_insert_ran(self.spec_db(), key@, encode_utf8(value@), inserted));
        if inserted {
            let f = sled_flush(&self.sled);
            let flushed = f.is_ok();
            assert(sled_flush_ran(self.spec_db(), flushed));
            store_result(true, flushed)
        } else {
            store_result(false, true)
        }
    }

    /// Flushes and, when that succeeded, reads the key; answers as
    /// `lookup_result` does for those outcomes: the stored bytes as text.
    fn get(&self, key: String) -> (r: Result<Option<String>>)
        ensures
            exists|flushed: bool|
                #[trigger] sled_flush_ran(self.spec_db(), flushed) && (!flushed ==> r == Err::<
                    Option<String>,
                    KvError,
                >(KvError::Sled)) && (flushed ==> exists|fetched: Option<Option<Seq<u8>>>|
                    #[trigger] sled_get_ran(self.spec_db(), key@, fetched) && text_bytes(r)
                        == spec_lookup_result(true, fetched)),
    {
        let f = sled_flush(&self.sled);
        let flushed = f.is_ok();
        assert(sled_flush_ran(self.spec_db(), flushed));
        if !flushed {
            return Err(KvError::Sled);
        }
        let ks = key.as_str();
        let o = sled_get(&self.sled, ks);
        assert(sled_get_ran(self.spec_db(), key@, fetched_view(o)));
        let fetched = match o {
            Err(_) => None,
            Ok(v) => Some(v),
        };
        lookup_result(true, fetched)
    }

    /// Removes the key and, when it was present, flushes; answers as
    /// `removal_result` does for those outcomes, so an absent key is
    /// `KvError::Log`.
    fn remove(&self, key: String) -> (r: Result<()>)
        ensures
            exists|removed: Option<bool>|
                #[trigger] sled_remove_ran(self.spec_db(), key@, removed) && (removed != Some(true)
                    ==> r == spec_removal_result(removed, true)) && (removed == Some(true) ==> exists|
                    flushed: bool,
                |
                    #[trigger] sled_flush_ran(self.spec_db(), flushed) && r == spec_removal_result(
                        removed,
                        flushed,
                    )),
    {
        let ks = key.as_str();
        let o = sled_remove(&self.sled, ks);
        let removed = match o {
            Err(_) => None,
            Ok(present) => Some(present),
        };
        assert(sled_remove_ran(self.spec_db(), key@, removed));
        if removed == Some(true) {
            let f = sled_flush(&self.sled);
            let flushed = f.is_ok();
            assert(sled_flush_ran(self.spec_db(), flushed));
            removal_result(removed, flushed)
        } else {
            removal_result(removed, true)
        }
    }
}

/// A value read back gives what a set stored: the bytes a set hands sled
/// for a text are read back as that text, once the flush succeeded and
/// sled gives them back; an absent key reads as no value.
pub proof fn lemma_sled_reads_back_what_it_stored(v: Seq<char>)
    ensures
        spec_lookup_result(true, Some(Some(encode_utf8(v)))) == Ok::<Option<Seq<u8>>, KvError>(
            Some(encode_utf8(v)),
        ),
        spec_lookup_result(true, Some(None)) == Ok::<Option<Seq<u8>>, KvError>(None),
        spec_lookup_result(false, Some(Some(encode_utf8(v)))) is Err,
{
    vstd::utf8::encode_utf8_valid_utf8(v);
}

} // verus!
