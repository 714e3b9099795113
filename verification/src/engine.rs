//! The engine: owner of one `Store`, with the three construction policies
//! used at process start.
//!
//! Concurrent callers share an engine behind one exclusive-access guard; every
//! operation here is a single guarded step, so the guard's holder sees exactly
//! the contracts below. The callers supply snapshot file contents as plain
//! bytes (`None` when the file is missing or unreadable) and write the bytes
//! returned by [`Engine::snapshot`] back to the file.

use crate::codec::{spec_decode, spec_encode};
use crate::store::{map_of, Store};
use vstd::prelude::*;

verus! {

/// Why a strict load failed: the snapshot file could not be read, or its
/// bytes do not decode.
#[derive(Clone, Copy, Debug)]
pub enum LoadError {
    Io,
    Decode,
}

/// Owns the store that all callers share.
pub struct Engine {
    store: Store,
}

impl View for Engine {
    type V = Map<Seq<char>, Seq<char>>;

    closed spec fn view(&self) -> Map<Seq<char>, Seq<char>> {
        self.store@
    }
}

impl Engine {
    /// The entries of the owned store.
    pub closed spec fn kv(self) -> Seq<(Seq<char>, Seq<char>)> {
        self.store.kv()
    }

    /// Well-formedness of the owned store.
    pub closed spec fn wf(self) -> bool {
        self.store.wf()
    }

    /// Strictly-loaded policy: an engine over the decoded snapshot, failing
    /// with [`LoadError::Io`] when there are no bytes to read and with
    /// [`LoadError::Decode`] when the bytes are malformed.
    pub fn from_state(snapshot: Option<&[u8]>) -> (r: Result<Engine, LoadError>)
        ensures
            match r {
                Ok(en) => {
                    &&& en.wf()
                    &&& snapshot matches Some(b) && spec_decode(b@) matches Some(e) && en@
                        == map_of(e)
                },
                Err(err) => match snapshot {
                    None => err is Io,
                    Some(b) => err is Decode && spec_decode(b@) is None,
                },
            },
    {
        match snapshot {
            None => Err(LoadError::Io),
            Some(bytes) => match Store::decode(bytes) {
                Ok(store) => Ok(Engine { store }),
                Err(_) => Err(LoadError::Decode),
            },
        }
    }

    /// Loaded-or-fresh policy: any load failure falls back to an empty store,
    /// so startup never fails on a missing or corrupt snapshot.
    pub fn from_state_or_empty(snapshot: Option<&[u8]>) -> (en: Engine)
        ensures
            en.wf(),
            match snapshot {
                None => en@ == Map::<Seq<char>, Seq<char>>::empty(),
                Some(b) => match spec_decode(b@) {
                    Some(e) => en@ == map_of(e),
                    None => en@ == Map::<Seq<char>, Seq<char>>::empty(),
                },
            },
    {
        match Engine::from_state(snapshot) {
            Ok(en) => en,
            Err(_) => Engine { store: Store::new() },
        }
    }

    /// Looks a key up in the owned store.
    pub fn get(&self, key: &String) -> (r: Option<&String>)
        requires
            self.wf(),
        ensures
            match r {
                Some(v) => self@.contains_key(key@) && v@ == self@[key@],
                None => !self@.contains_key(key@),
            },
    {
        self.store.get(key)
    }

    /// Inserts `key -> value` into the owned store, overwriting any existing
    /// value for `key`.
    pub fn insert(&mut self, key: String, value: String)
        requires
            old(self).wf(),
        ensures
            final(self).wf(),
            final(self)@ == old(self)@.insert(key@, value@),
    {
        self.store.insert(key, value);
    }

    /// The number of keys currently held.
    pub fn len(&self) -> (n: usize)
        requires
            self.wf(),
        ensures
            n == self@.len(),
    {
        self.store.len()
    }

    /// Whether the owned store holds no keys.
    pub fn is_empty(&self) -> (r: bool)
        requires
            self.wf(),
        ensures
            r <==> self@.len() == 0,
    {
        self.store.is_empty()
    }

    /// Captures a snapshot of the current store as the bytes to persist. The
    /// result decodes back to exactly the current content, so a later load of
    /// these bytes reproduces this engine's map.
    pub fn snapshot(&self) -> (r: Vec<u8>)
        requires
            self.wf(),
        ensures
            r@ == spec_encode(self.kv()),
            spec_decode(r@) matches Some(e) && map_of(e) == self@,
    {
        self.store.encode()
    }
}

impl Default for Engine {
    /// Fresh policy: an engine over an empty store.
    fn default() -> (en: Engine)
        ensures
            en.wf(),
            en@ == Map::<Seq<char>, Seq<char>>::empty(),
    {
        Engine { store: Store::new() }
    }
}

} // verus!
