//! The value service: translates remote get/insert calls into engine
//! operations over plain string keys and values.
//!
//! The transport layer hands the request fields in and maps the results back
//! to remote-call outcomes; a missing key is the expected not-found outcome,
//! never a system fault.

use crate::codec::{spec_decode, spec_encode};
use crate::engine::Engine;
use crate::store::map_of;
use vstd::prelude::*;

verus! {

/// The requested key is absent from the map.
#[derive(Clone, Copy, Debug)]
pub struct NotFoundError;

/// Serves get/insert requests against one shared engine.
pub struct KeyValueService {
    engine: Engine,
}

impl View for KeyValueService {
    type V = Map<Seq<char>, Seq<char>>;

    closed spec fn view(&self) -> Map<Seq<char>, Seq<char>> {
        self.engine@
    }
}

impl KeyValueService {
    /// Well-formedness of the underlying engine.
    pub closed spec fn wf(self) -> bool {
        self.engine.wf()
    }

    /// The entries of the underlying store.
    pub closed spec fn kv(self) -> Seq<(Seq<char>, Seq<char>)> {
        self.engine.kv()
    }

    /// A service over an engine built with the loaded-or-fresh policy, the
    /// policy used at normal service start: bad or missing snapshot bytes
    /// fall back to an empty store.
    pub fn with_preload(snapshot: Option<&[u8]>) -> (s: KeyValueService)
        ensures
            s.wf(),
            match snapshot {
                None => s@ == Map::<Seq<char>, Seq<char>>::empty(),
                Some(b) => match spec_decode(b@) {
                    Some(e) => s@ == map_of(e),
                    None => s@ == Map::<Seq<char>, Seq<char>>::empty(),
                },
            },
    {
        KeyValueService { engine: Engine::from_state_or_empty(snapshot) }
    }

    /// Returns the current value of `key`, or signals not-found exactly when
    /// the key is absent.
    pub fn get_value(&self, key: &String) -> (r: Result<String, NotFoundError>)
        requires
            self.wf(),
        ensures
            match r {
                Ok(v) => self@.contains_key(key@) && v@ == self@[key@],
                Err(_) => !self@.contains_key(key@),
            },
    {
        match self.engine.get(key) {
            Some(v) => Ok(v.clone()),
            None => Err(NotFoundError),
        }
    }

    /// Inserts or overwrites `key -> value` and returns the acknowledgment
    /// text. Never fails: no validation is applied to the key or the value.
    pub fn insert_key_value(&mut self, key: String, value: String) -> (ack: String)
        requires
            old(self).wf(),
        ensures
            final(self).wf(),
            final(self)@ == old(self)@.insert(key@, value@),
            ack@ == "value"@,
    {
        self.engine.insert(key, value);
        "value".to_owned()
    }

    /// The number of keys currently held.
    pub fn len(&self) -> (n: usize)
        requires
            self.wf(),
        ensures
            n == self@.len(),
    {
        self.engine.len()
    }

    /// Captures the bytes to persist for the current map, as the periodic
    /// snapshotter does on each tick.
    pub fn snapshot(&self) -> (r: Vec<u8>)
        requires
            self.wf(),
        ensures
            r@ == spec_encode(self.kv()),
            spec_decode(r@) matches Some(e) && map_of(e) == self@,
    {
        self.engine.snapshot()
    }
}

} // verus!
