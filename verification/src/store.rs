//! The in-memory key-value map: unique text keys, upsert semantics, and the
//! encode/decode pair that turns a store into a snapshot buffer and back.

use crate::codec::{
    append_text, entries_fit, read_text, spec_decode, spec_decode_entries, spec_encode,
    spec_encode_entries, spec_encode_entry, text_fits, DecodeError,
};
use vstd::pervasive::VecAdditionalExecFns;
use vstd::prelude::*;

verus! {

/// Abstract content of a sequence of key-value entries: the map obtained by
/// inserting the entries in order, so a later entry for a key wins.
pub open spec fn map_of(e: Seq<(Seq<char>, Seq<char>)>) -> Map<Seq<char>, Seq<char>>
    decreases e.len(),
{
    if e.len() == 0 {
        Map::empty()
    } else {
        map_of(e.drop_last()).insert(e.last().0, e.last().1)
    }
}

/// The entry keys are pairwise distinct.
pub open spec fn distinct_keys(e: Seq<(Seq<char>, Seq<char>)>) -> bool {
    forall|i: int, j: int| 0 <= i < j < e.len() ==> (#[trigger] e[i]).0 != (#[trigger] e[j]).0
}

/// The content of an entry sequence contains exactly the entry keys.
pub proof fn lemma_map_of_domain(e: Seq<(Seq<char>, Seq<char>)>)
    ensures
        forall|k: Seq<char>|
            #[trigger] map_of(e).contains_key(k) <==> exists|i: int|
                0 <= i < e.len() && (#[trigger] e[i]).0 == k,
        map_of(e).dom().finite(),
    decreases e.len(),
{
    if e.len() > 0 {
        lemma_map_of_domain(e.drop_last());
        assert forall|k: Seq<char>| #[trigger]
            map_of(e).contains_key(k) implies exists|i: int|
            0 <= i < e.len() && (#[trigger] e[i]).0 == k by {
            if k == e.last().0 {
                assert(e[e.len() - 1].0 == k);
            } else {
                let i = choose|i: int| 0 <= i < e.drop_last().len() && (#[trigger] e.drop_last()[i]).0 == k;
                assert(e[i].0 == k);
            }
        }
        assert forall|k: Seq<char>|
            (exists|i: int| 0 <= i < e.len() && (#[trigger] e[i]).0 == k) implies #[trigger]
            map_of(e).contains_key(k) by {
            let i = choose|i: int| 0 <= i < e.len() && (#[trigger] e[i]).0 == k;
            if i < e.len() - 1 {
                assert(e.drop_last()[i].0 == k);
            }
        }
    }
}

/// For distinct keys, the content maps every entry's key to that entry's
/// value, and has exactly as many keys as there are entries. This is the
/// no-lost-updates guarantee for any serialized sequence of distinct-key
/// inserts: each one remains visible in the final map.
pub proof fn lemma_map_of_distinct(e: Seq<(Seq<char>, Seq<char>)>)
    requires
        distinct_keys(e),
    ensures
        forall|i: int| 0 <= i < e.len() ==> {
            &&& map_of(e).contains_key((#[trigger] e[i]).0)
            &&& map_of(e)[e[i].0] == e[i].1
        },
        map_of(e).dom().finite(),
        map_of(e).len() == e.len(),
    decreases e.len(),
{
    lemma_map_of_domain(e);
    if e.len() > 0 {
        let d = e.drop_last();
        lemma_map_of_distinct(d);
        lemma_map_of_domain(d);
        assert forall|i: int| 0 <= i < e.len() implies {
            &&& map_of(e).contains_key((#[trigger] e[i]).0)
            &&& map_of(e)[e[i].0] == e[i].1
        } by {
            if i < e.len() - 1 {
                assert(d[i] == e[i]);
                assert(e[i].0 != e.last().0);
            }
        }
        assert(!map_of(d).contains_key(e.last().0));
        vstd::set::axiom_set_insert_len(map_of(d).dom(), e.last().0);
        assert(map_of(e).dom() =~= map_of(d).dom().insert(e.last().0));
    }
}

/// Replacing the value at position `i` changes the content exactly as an
/// insert of that entry's key does.
proof fn lemma_map_of_update(e: Seq<(Seq<char>, Seq<char>)>, i: int, v: Seq<char>)
    requires
        distinct_keys(e),
        0 <= i < e.len(),
    ensures
        map_of(e.update(i, (e[i].0, v))) == map_of(e).insert(e[i].0, v),
    decreases e.len(),
{
    let u = e.update(i, (e[i].0, v));
    if i == e.len() - 1 {
        assert(u.drop_last() =~= e.drop_last());
        assert(map_of(u) =~= map_of(e).insert(e[i].0, v));
    } else {
        assert(u.drop_last() =~= e.drop_last().update(i, (e[i].0, v)));
        assert(e.drop_last()[i] == e[i]);
        lemma_map_of_update(e.drop_last(), i, v);
        assert(e[i].0 != e.last().0);
        assert(map_of(u) =~= map_of(e).insert(e[i].0, v));
    }
}

/// In-memory mapping from text keys to text values. Keys are unique;
/// inserting an existing key overwrites its value.
pub struct Store {
    entries: Vec<(String, String)>,
}

impl View for Store {
    type V = Map<Seq<char>, Seq<char>>;

    closed spec fn view(&self) -> Map<Seq<char>, Seq<char>> {
        map_of(self.kv())
    }
}

impl Store {
    /// The entries as a sequence of (key, value) character sequences.
    pub closed spec fn kv(self) -> Seq<(Seq<char>, Seq<char>)> {
        self.entries@.map_values(|p: (String, String)| (p.0@, p.1@))
    }

    /// Well-formedness: no key occurs twice, and every key and value fits the
    /// length fields of the snapshot format.
    pub closed spec fn wf(self) -> bool {
        &&& distinct_keys(self.kv())
        &&& forall|i: int|
            0 <= i < self.kv().len() ==> text_fits(#[trigger] self.kv()[i].0) && text_fits(
                self.kv()[i].1,
            )
    }

    /// The content is exactly the map over the entries.
    pub proof fn lemma_view(self)
        ensures
            self@ == map_of(self.kv()),
            self.wf() ==> entries_fit(self.kv()),
            self.wf() ==> distinct_keys(self.kv()),
            self.wf() ==> self@.dom().finite() && self@.len() == self.kv().len(),
    {
        vstd::std_specs::vec::axiom_spec_len(&self.entries);
        if self.wf() {
            lemma_map_of_distinct(self.kv());
        }
    }

    /// Creates an empty store.
    pub fn new() -> (s: Store)
        ensures
            s.wf(),
            s@ == Map::<Seq<char>, Seq<char>>::empty(),
            s.kv().len() == 0,
    {
        Store { entries: Vec::new() }
    }

    /// Looks a key up and returns its current value, if any.
    pub fn get(&self, key: &String) -> (r: Option<&String>)
        requires
            self.wf(),
        ensures
            match r {
                Some(v) => self@.contains_key(key@) && v@ == self@[key@],
                None => !self@.contains_key(key@),
            },
    {
        proof {
            lemma_map_of_distinct(self.kv());
            lemma_map_of_domain(self.kv());
        }
        let n = self.entries.len();
        let mut i: usize = 0;
        while i < n
            invariant
                self.wf(),
                n == self.entries@.len(),
                i <= n,
                forall|j: int| 0 <= j < i ==> (#[trigger] self.kv()[j]).0 != key@,
                forall|j: int| 0 <= j < self.kv().len() ==> {
                    &&& map_of(self.kv()).contains_key((#[trigger] self.kv()[j]).0)
                    &&& map_of(self.kv())[self.kv()[j].0] == self.kv()[j].1
                },
                forall|k: Seq<char>|
                    #[trigger] map_of(self.kv()).contains_key(k) <==> exists|j: int|
                        0 <= j < self.kv().len() && (#[trigger] self.kv()[j]).0 == k,
            decreases n - i,
        {
            if self.entries[i].0 == *key {
                assert(self.kv()[i as int].0 == key@);
                return Some(&self.entries[i].1);
            }
            i += 1;
        }
        assert(forall|j: int| 0 <= j < self.kv().len() ==> (#[trigger] self.kv()[j]).0 != key@);
        None
    }

    /// Inserts `key -> value`; an existing entry for `key` is overwritten.
    pub fn insert(&mut self, key: String, value: String)
        requires
            old(self).wf(),
        ensures
            final(self).wf(),
            final(self)@ == old(self)@.insert(key@, value@),
    {
        // Any text held in memory fits the format's 64-bit length field;
        // taking its byte slice brings that bound into scope.
        let key_bytes: &[u8] = key.as_str().as_bytes();
        let value_bytes: &[u8] = value.as_str().as_bytes();
        proof {
            vstd::slice::axiom_spec_len(key_bytes);
            vstd::slice::axiom_spec_len(value_bytes);
            assert(text_fits(key@));
            assert(text_fits(value@));
        }
        let n = self.entries.len();
        let mut i: usize = 0;
        while i < n
            invariant
                self == old(self),
                self.wf(),
                n == self.entries@.len(),
                i <= n,
                text_fits(key@),
                text_fits(value@),
                forall|j: int| 0 <= j < i ==> (#[trigger] self.kv()[j]).0 != key@,
            decreases n - i,
        {
            if self.entries[i].0 == key {
                proof {
                    lemma_map_of_update(self.kv(), i as int, value@);
                }
                self.entries.set(i, (key, value));
                proof {
                    let oldkv = old(self).kv();
                    let newkv = self.kv();
                    assert(newkv =~= oldkv.update(i as int, (key@, value@)));
                    assert(oldkv[i as int].0 == key@);
                    assert(forall|j: int|
                        0 <= j < newkv.len() ==> (#[trigger] newkv[j]).0 == oldkv[j].0);
                    assert forall|j: int|
                        0 <= j < newkv.len() implies text_fits((#[trigger] newkv[j]).0)
                        && text_fits(newkv[j].1) by {
                        if j == i {
                            assert(newkv[j] == (key@, value@));
                        } else {
                            assert(newkv[j] == oldkv[j]);
                        }
                    }
                }
                return ;
            }
            i += 1;
        }
        self.entries.push((key, value));
        assert(self.kv() =~= old(self).kv().push((key@, value@)));
        assert(self.kv().drop_last() =~= old(self).kv());
    }

    /// The number of keys currently held.
    pub fn len(&self) -> (n: usize)
        requires
            self.wf(),
        ensures
            n == self@.len(),
    {
        proof {
            lemma_map_of_distinct(self.kv());
        }
        self.entries.len()
    }

    /// Whether the store holds no keys at all.
    pub fn is_empty(&self) -> (r: bool)
        requires
            self.wf(),
        ensures
            r <==> self@.len() == 0,
    {
        proof {
            lemma_map_of_distinct(self.kv());
        }
        self.entries.len() == 0
    }

    /// Encodes the store into a snapshot buffer. Total and deterministic: the
    /// result is a function of the entries alone, and decoding it yields them
    /// back (see [`lemma_store_round_trip`]).
    pub fn encode(&self) -> (r: Vec<u8>)
        requires
            self.wf(),
        ensures
            r@ == spec_encode(self.kv()),
            spec_decode(r@) == Some(self.kv()),
            self@ == map_of(self.kv()),
    {
        proof {
            self.lemma_view();
            crate::codec::lemma_encode_decode(self.kv());
        }
        let n = self.entries.len();
        let mut buf = vstd::bytes::u64_to_le_bytes(n as u64);
        let mut i: usize = 0;
        proof {
            assert(self.kv().skip(0) =~= self.kv());
        }
        while i < n
            invariant
                self.wf(),
                n == self.entries@.len(),
                i <= n,
                buf@ + spec_encode_entries(self.kv().skip(i as int)) == spec_encode(self.kv()),
            decreases n - i,
        {
            let ghost prefix = buf@;
            let ghost rest = self.kv().skip(i as int);
            append_text(&mut buf, &self.entries[i].0);
            append_text(&mut buf, &self.entries[i].1);
            proof {
                assert(rest.first() == self.kv()[i as int]);
                assert(rest.drop_first() =~= self.kv().skip(i as int + 1));
                assert(spec_encode_entries(rest) == spec_encode_entry(self.kv()[i as int])
                    + spec_encode_entries(self.kv().skip(i as int + 1)));
                assert(buf@ + spec_encode_entries(self.kv().skip(i as int + 1)) =~= prefix
                    + spec_encode_entries(rest));
            }
            i += 1;
        }
        proof {
            assert(self.kv().skip(n as int) =~= Seq::<(Seq<char>, Seq<char>)>::empty());
            assert(buf@ + spec_encode_entries(self.kv().skip(n as int)) =~= buf@);
        }
        buf
    }

    /// Decodes a snapshot buffer. Fails with [`DecodeError`] if and only if
    /// the buffer is malformed — in particular, a zero-length buffer is always
    /// an error, never an empty store. On success the store's content is the
    /// map over the decoded entries.
    pub fn decode(bytes: &[u8]) -> (r: Result<Store, DecodeError>)
        ensures
            match r {
                Ok(s) => {
                    &&& s.wf()
                    &&& spec_decode(bytes@) matches Some(e) && s@ == map_of(e)
                },
                Err(_) => spec_decode(bytes@) is None,
            },
            bytes@.len() == 0 ==> r is Err,
    {
        proof {
            vstd::bytes::lemma_auto_spec_u64_to_from_le_bytes();
        }
        if bytes.len() < 8 {
            return Err(DecodeError);
        }
        let header = vstd::slice::slice_subrange(bytes, 0, 8);
        assert(header@ =~= bytes@.take(8));
        let total = vstd::bytes::u64_from_le_bytes(header);
        let ghost n0 = total as nat;
        assert(spec_decode(bytes@) == spec_decode_entries(bytes@.skip(8), n0));
        let mut store = Store::new();
        let ghost mut done = Seq::<(Seq<char>, Seq<char>)>::empty();
        let mut pos: usize = 8;
        let mut i: u64 = 0;
        proof {
            if spec_decode_entries(bytes@.skip(8), n0) is Some {
                let t = spec_decode_entries(bytes@.skip(8), n0).unwrap();
                assert(done + t =~= t);
            }
        }
        while i < total
            invariant
                8 <= pos <= bytes@.len(),
                i <= total,
                n0 == total as nat,
                spec_decode(bytes@) == spec_decode_entries(bytes@.skip(8), n0),
                store.wf(),
                store@ == map_of(done),
                done.len() == i,
                match spec_decode_entries(bytes@.skip(pos as int), (n0 - i) as nat) {
                    Some(t) => spec_decode_entries(bytes@.skip(8), n0) == Some(done + t),
                    None => spec_decode_entries(bytes@.skip(8), n0) is None,
                },
            decreases total - i,
        {
            let ghost remaining = (n0 - i) as nat;
            assert(remaining > 0);
            let (key, pos1) = match read_text(bytes, pos) {
                Ok(p) => p,
                Err(e) => {
                    assert(spec_decode_entries(bytes@.skip(pos as int), remaining) is None);
                    return Err(e);
                },
            };
            let (value, pos2) = match read_text(bytes, pos1) {
                Ok(p) => p,
                Err(e) => {
                    assert(spec_decode_entries(bytes@.skip(pos as int), remaining) is None);
                    return Err(e);
                },
            };
            proof {
                assert(done.push((key@, value@)).drop_last() =~= done);
                let t = spec_decode_entries(bytes@.skip(pos2 as int), (remaining - 1) as nat);
                if t is Some {
                    assert((done + (seq![(key@, value@)] + t.unwrap())) =~= done.push(
                        (key@, value@),
                    ) + t.unwrap());
                }
            }
            store.insert(key, value);
            proof {
                done = done.push((key@, value@));
            }
            pos = pos2;
            i += 1;
        }
        if pos != bytes.len() {
            assert(bytes@.skip(pos as int).len() != 0);
            return Err(DecodeError);
        }
        assert(bytes@.skip(pos as int).len() == 0);
        assert(done + Seq::<(Seq<char>, Seq<char>)>::empty() =~= done);
        Ok(store)
    }
}

/// Upsert semantics: inserting a key twice leaves exactly one entry for it,
/// holding the latest value, whatever map the inserts started from.
pub proof fn lemma_upsert(m: Map<Seq<char>, Seq<char>>, k: Seq<char>, v1: Seq<char>, v2: Seq<char>)
    ensures
        m.insert(k, v1).insert(k, v2) == m.insert(k, v2),
        m.insert(k, v1).insert(k, v2)[k] == v2,
        m.insert(k, v1).insert(k, v2).dom() == m.dom().insert(k),
{
    assert(m.insert(k, v1).insert(k, v2) =~= m.insert(k, v2));
    assert(m.insert(k, v1).insert(k, v2).dom() =~= m.dom().insert(k));
}

/// Round-trip fidelity for whole stores: decoding the encoding of any
/// well-formed store yields exactly its entries, hence a store with an equal
/// map.
pub proof fn lemma_store_round_trip(s: Store)
    requires
        s.wf(),
    ensures
        spec_decode(spec_encode(s.kv())) == Some(s.kv()),
        map_of(s.kv()) == s@,
{
    s.lemma_view();
    crate::codec::lemma_encode_decode(s.kv());
}

} // verus!
