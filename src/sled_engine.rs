//! An engine that keeps its mapping in an embedded sled database.
use vstd::prelude::*;
use vstd::utf8::*;

use crate::error::Error;
use crate::record::text_of_utf8;

verus! {

#[verifier::external_type_specification]
#[verifier::external_body]
pub struct ExDb(sled::Db);

/// What a sled database holds: byte keys mapped to byte values.
pub uninterp spec fn sled_contents(db: sled::Db) -> Map<Seq<u8>, Seq<u8>>;

/// Relies on `sled::open`: opens, or creates, the database at `path`.
#[verifier::external_body]
fn sled_open(path: &str) -> (r: Result<sled::Db, ()>) {
    sled::open(path).map_err(|_| ())
}

/// Relies on `Tree::get`: the value stored under `key`, if any.
#[verifier::external_body]
fn sled_get(db: &sled::Db, key: &[u8]) -> (r: Result<Option<Vec<u8>>, ()>)
    ensures
        r matches Ok(o) ==> (o is Some <==> sled_contents(*db).contains_key(key@)),
        r matches Ok(Some(v)) ==> v@ == sled_contents(*db)[key@],
{
    db.get(key).map(|o| o.map(|v| v.to_vec())).map_err(|_| ())
}

/// Relies on `Tree::insert`: stores `value` under `key`.
#[verifier::external_body]
fn sled_insert(db: &mut sled::Db, key: &[u8], value: &[u8]) -> (r: Result<Option<Vec<u8>>, ()>)
    ensures
        r is Ok ==> sled_contents(*final(db)) == sled_contents(*old(db)).insert(key@, value@),
{
    db.insert(key, value).map(|o| o.map(|v| v.to_vec())).map_err(|_| ())
}

/// Relies on `Tree::remove`: drops `key`, giving back the value it had.
#[verifier::external_body]
fn sled_remove(db: &mut sled::Db, key: &[u8]) -> (r: Result<Option<Vec<u8>>, ()>)
    ensures
        r matches Ok(o) ==> (o is Some <==> sled_contents(*old(db)).contains_key(key@))
            && sled_contents(*final(db)) == sled_contents(*old(db)).remove(key@),
{
    db.remove(key).map(|o| o.map(|v| v.to_vec())).map_err(|_| ())
}

/// Relies on `Tree::flush`: writes dirty buffers out and syncs them; the
/// contents stay as they are.
#[verifier::external_body]
fn sled_flush(db: &sled::Db) -> (r: Result<usize, ()>) {
    db.flush().map_err(|_| ())
}

/// An engine backed by a sled database; keys and values are stored as their
/// UTF-8 bytes.
pub struct SledKvsEngine {
    store: sled::Db,
}

impl SledKvsEngine {
    /// What the database holds.
    pub closed spec fn contents(&self) -> Map<Seq<u8>, Seq<u8>> {
        sled_contents(self.store)
    }

    /// Opens, or creates, the database in the directory `path`.
    pub fn new(path: &str) -> (r: Result<SledKvsEngine, Error>)
        ensures
            r is Err ==> r == Err::<SledKvsEngine, Error>(Error::Io),
    {
        match sled_open(path) {
            Ok(store) => Ok(SledKvsEngine { store }),
            Err(_) => Err(Error::Io),
        }
    }

    /// The value of `key`, or `None` where it has none. Fails with `Io` where
    /// sled does, and with `Corrupt` where the stored value is not UTF-8.
    pub fn get(&self, key: String) -> (r: Result<Option<String>, Error>)
        ensures
            r matches Ok(None) ==> !self.contents().contains_key(encode_utf8(key@)),
            r matches Ok(Some(v)) ==> self.contents().contains_key(encode_utf8(key@))
                && self.contents()[encode_utf8(key@)] == encode_utf8(v@),
            r matches Err(e) ==> e == Error::Io || (e == Error::Corrupt
                && self.contents().contains_key(encode_utf8(key@)) && !valid_utf8(
                self.contents()[encode_utf8(key@)],
            )),
            !self.contents().contains_key(encode_utf8(key@)) ==> r == Ok::<
                Option<String>,
                Error,
            >(None) || r == Err::<Option<String>, Error>(Error::Io),
    {
        broadcast use decode_utf8_encode_utf8;

        get_outcome(sled_get(&self.store, key.as_str().as_bytes()))
    }

    /// Writes `key -> value` and flushes it; fails with `Io` where sled does.
    pub fn set(&mut self, key: String, value: String) -> (r: Result<(), Error>)
        ensures
            r is Ok ==> final(self).contents() == old(self).contents().insert(
                encode_utf8(key@),
                encode_utf8(value@),
            ),
            r is Err ==> r == Err::<(), Error>(Error::Io),
    {
        let stored = sled_insert(&mut self.store, key.as_str().as_bytes(), value.as_str().as_bytes());
        let flushed = match stored {
            Ok(_) => sled_flush(&self.store),
            Err(()) => Err(()),
        };
        store_outcome(stored, flushed)
    }

    /// Drops the mapping of `key` and flushes; fails with `KeyNotFound`,
    /// changing nothing, where there is none, and with `Io` where sled fails.
    pub fn remove(&mut self, key: String) -> (r: Result<(), Error>)
        ensures
            r is Ok ==> old(self).contents().contains_key(encode_utf8(key@))
                && final(self).contents() == old(self).contents().remove(encode_utf8(key@)),
            r == Err::<(), Error>(Error::KeyNotFound) ==> !old(self).contents().contains_key(
                encode_utf8(key@),
            ) && final(self).contents() == old(self).contents(),
            r is Err ==> r == Err::<(), Error>(Error::KeyNotFound) || r == Err::<(), Error>(
                Error::Io,
            ),
            !old(self).contents().contains_key(encode_utf8(key@)) ==> r is Err,
    {
        let removed = sled_remove(&mut self.store, key.as_str().as_bytes());
        let flushed = match removed {
            Ok(Some(_)) => sled_flush(&self.store),
            _ => Ok(0),
        };
        proof {
            if removed matches Ok(None) {
                assert(old(self).contents().remove(encode_utf8(key@)) =~= old(self).contents());
            }
        }
        removal_outcome(removed, flushed)
    }
}

/// What `get` answers for what sled's lookup gave back: nothing stored is
/// `None`, stored UTF-8 is its text, other stored bytes are `Corrupt`, and a
/// failed lookup is `Io`.
pub fn get_outcome(found: Result<Option<Vec<u8>>, ()>) -> (r: Result<Option<String>, Error>)
    ensures
        found matches Ok(None) ==> r == Ok::<Option<String>, Error>(None),
        found matches Ok(Some(b)) ==> (if valid_utf8(b@) {
            r matches Ok(Some(v)) && v@ == decode_utf8(b@)
        } else {
            r == Err::<Option<String>, Error>(Error::Corrupt)
        }),
        found is Err ==> r == Err::<Option<String>, Error>(Error::Io),
{
    match found {
        Ok(Some(bytes)) => match text_of_utf8(bytes.as_slice()) {
            Some(value) => Ok(Some(value)),
            None => Err(Error::Corrupt),
        },
        Ok(None) => Ok(None),
        Err(()) => Err(Error::Io),
    }
}

/// What `set` answers for what sled's insert and the flush after it gave
/// back: success only where both succeeded, `Io` otherwise.
pub fn store_outcome(stored: Result<Option<Vec<u8>>, ()>, flushed: Result<usize, ()>) -> (r: Result<
    (),
    Error,
>)
    ensures
        stored is Ok && flushed is Ok ==> r == Ok::<(), Error>(()),
        !(stored is Ok && flushed is Ok) ==> r == Err::<(), Error>(Error::Io),
{
    match (stored, flushed) {
        (Ok(_), Ok(_)) => Ok(()),
        _ => Err(Error::Io),
    }
}

/// What `remove` answers for what sled's remove and the flush after it gave
/// back: an absent key is `KeyNotFound`; a removed key is success where the
/// flush succeeded and `Io` where it failed; a failed remove is `Io`.
pub fn removal_outcome(removed: Result<Option<Vec<u8>>, ()>, flushed: Result<usize, ()>) -> (r:
    Result<(), Error>)
    ensures
        removed matches Ok(None) ==> r == Err::<(), Error>(Error::KeyNotFound),
        removed matches Ok(Some(_)) ==> (flushed is Ok ==> r == Ok::<(), Error>(())) && (
        flushed is Err ==> r == Err::<(), Error>(Error::Io)),
        removed is Err ==> r == Err::<(), Error>(Error::Io),
{
    match removed {
        Ok(Some(_)) => match flushed {
            Ok(_) => Ok(()),
            Err(()) => Err(Error::Io),
        },
        Ok(None) => Err(Error::KeyNotFound),
        Err(()) => Err(Error::Io),
    }
}

} // verus!
