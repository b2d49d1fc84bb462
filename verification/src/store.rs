//! The content store: a mapping from object id to stored bytes,
//! addressed purely by content and written at most once per id. This
//! backend keeps the mapping in memory; what it stores under an id is
//! the object's canonical serialization.

use vstd::prelude::*;
use crate::codec::{decode_object, encode_object, lemma_round_trip, serial_of};
use crate::ids::{object_id, sha1_of, ObjectId};
use crate::object::{Object, ObjectView, StoreError};

verus! {

/// Compares two byte strings.
fn bytes_eq(a: &[u8], b: &[u8]) -> (r: bool)
    ensures
        r == (a@ == b@),
{
    if a.len() != b.len() {
        return false;
    }
    let mut i: usize = 0;
    while i < a.len()
        invariant
            i <= a@.len(),
            a@.len() == b@.len(),
            forall|j: int| 0 <= j < i ==> a@[j] == b@[j],
        decreases a@.len() - i,
    {
        if a[i] != b[i] {
            return false;
        }
        i = i + 1;
    }
    proof {
        assert(a@ =~= b@);
    }
    true
}

/// Copies a byte string.
fn copy_bytes(a: &[u8]) -> (r: Vec<u8>)
    ensures
        r@ == a@,
{
    let mut out: Vec<u8> = Vec::new();
    let mut i: usize = 0;
    while i < a.len()
        invariant
            i <= a@.len(),
            out@ == a@.take(i as int),
        decreases a@.len() - i,
    {
        out.push(a[i]);
        proof {
            assert(a@.take(i as int).push(a@[i as int]) =~= a@.take(i + 1 as int));
        }
        i = i + 1;
    }
    proof {
        assert(a@.take(a@.len() as int) =~= a@);
    }
    out
}

struct Entry {
    id: Vec<u8>,
    data: Vec<u8>,
}

/// The stored bytes of an entry are the canonical serialization of some
/// object.
spec fn canonical_entry(e: Entry) -> bool {
    exists|o: ObjectView| o.payload.len() <= usize::MAX && e.data@ == serial_of(o)
}

/// The mapping a sequence of entries denotes; later entries win, though
/// a well-formed store never repeats an id.
spec fn map_of(entries: Seq<Entry>) -> Map<Seq<u8>, Seq<u8>>
    decreases entries.len(),
{
    if entries.len() == 0 {
        Map::empty()
    } else {
        map_of(entries.drop_last()).insert(entries.last().id@, entries.last().data@)
    }
}

proof fn lemma_map_of_contains(entries: Seq<Entry>, k: Seq<u8>)
    ensures
        map_of(entries).contains_key(k) <==> exists|i: int|
            0 <= i < entries.len() && #[trigger] entries[i].id@ == k,
    decreases entries.len(),
{
    if entries.len() > 0 {
        lemma_map_of_contains(entries.drop_last(), k);
        assert(forall|i: int| 0 <= i < entries.len() - 1 ==> #[trigger] entries.drop_last()[i]
            == entries[i]);
        if map_of(entries).contains_key(k) {
            if entries.last().id@ != k {
                let i = choose|i: int|
                    0 <= i < entries.drop_last().len() && #[trigger] entries.drop_last()[i].id@
                        == k;
                assert(entries[i].id@ == k);
            } else {
                assert(entries[entries.len() - 1].id@ == k);
            }
        }
        if exists|i: int| 0 <= i < entries.len() && #[trigger] entries[i].id@ == k {
            let i = choose|i: int| 0 <= i < entries.len() && #[trigger] entries[i].id@ == k;
            if i < entries.len() - 1 {
                assert(entries.drop_last()[i].id@ == k);
            }
        }
    }
}

proof fn lemma_map_of_get(entries: Seq<Entry>, i: int)
    requires
        0 <= i < entries.len(),
        forall|a: int, b: int| 0 <= a < b < entries.len() ==> #[trigger] entries[a].id@
            != #[trigger] entries[b].id@,
    ensures
        map_of(entries).contains_key(entries[i].id@),
        map_of(entries)[entries[i].id@] == entries[i].data@,
    decreases entries.len(),
{
    if i == entries.len() - 1 {
    } else {
        assert(forall|a: int| 0 <= a < entries.len() - 1 ==> #[trigger] entries.drop_last()[a]
            == entries[a]);
        lemma_map_of_get(entries.drop_last(), i);
        assert(entries[i].id@ != entries[entries.len() - 1].id@);
    }
}

proof fn lemma_map_of_len(entries: Seq<Entry>)
    requires
        forall|a: int, b: int| 0 <= a < b < entries.len() ==> #[trigger] entries[a].id@
            != #[trigger] entries[b].id@,
    ensures
        map_of(entries).dom().finite(),
        map_of(entries).dom().len() == entries.len(),
    decreases entries.len(),
{
    if entries.len() == 0 {
        assert(map_of(entries).dom() =~= Set::<Seq<u8>>::empty());
    } else {
        let prefix = entries.drop_last();
        let last_id = entries.last().id@;
        assert(forall|a: int| 0 <= a < prefix.len() ==> #[trigger] prefix[a] == entries[a]);
        lemma_map_of_len(prefix);
        lemma_map_of_contains(prefix, last_id);
        assert(!map_of(prefix).contains_key(last_id)) by {
            if exists|i: int| 0 <= i < prefix.len() && #[trigger] prefix[i].id@ == last_id {
                let i = choose|i: int|
                    0 <= i < prefix.len() && #[trigger] prefix[i].id@ == last_id;
                assert(entries[i].id@ != entries[entries.len() - 1].id@);
            }
        }
        assert(map_of(entries).dom() =~= map_of(prefix).dom().insert(last_id));
        vstd::set::axiom_set_insert_len(map_of(prefix).dom(), last_id);
    }
}

/// Finds the entry stored under an id.
fn find_entry(entries: &Vec<Entry>, id: &[u8]) -> (r: Option<usize>)
    ensures
        match r {
            Some(i) => i < entries@.len() && entries@[i as int].id@ == id@,
            None => forall|i: int| 0 <= i < entries@.len() ==> #[trigger] entries@[i].id@ != id@,
        },
{
    let mut i: usize = 0;
    while i < entries.len()
        invariant
            i <= entries@.len(),
            forall|j: int| 0 <= j < i ==> #[trigger] entries@[j].id@ != id@,
        decreases entries@.len() - i,
    {
        if bytes_eq(entries[i].id.as_slice(), id) {
            return Some(i);
        }
        i = i + 1;
    }
    None
}

/// An in-memory content store: object ids to canonical serializations.
pub struct MemStore {
    entries: Vec<Entry>,
}

impl View for MemStore {
    type V = Map<Seq<u8>, Seq<u8>>;

    closed spec fn view(&self) -> Map<Seq<u8>, Seq<u8>> {
        map_of(self.entries@)
    }
}

/// The effect of `put` on the stored mapping: insert the canonical
/// serialization under the content id, unless that id is already
/// present — an existing entry is trusted to hold the same content, per
/// content addressing, and is never overwritten.
pub open spec fn put_model(m: Map<Seq<u8>, Seq<u8>>, o: ObjectView) -> Map<Seq<u8>, Seq<u8>> {
    let id = sha1_of(serial_of(o));
    if m.contains_key(id) {
        m
    } else {
        m.insert(id, serial_of(o))
    }
}

impl MemStore {
    /// Ids are never repeated, and every stored byte string is the
    /// canonical serialization of some object.
    pub closed spec fn wf(&self) -> bool {
        let es = self.entries@;
        (forall|a: int, b: int| 0 <= a < b < es.len() ==> #[trigger] es[a].id@ != #[trigger] es[
            b].id@)
        && (forall|i: int| 0 <= i < es.len() ==> canonical_entry(#[trigger] es[i]))
    }

    /// A fresh, empty store.
    pub fn new() -> (s: MemStore)
        ensures
            s.wf(),
            s@ == Map::<Seq<u8>, Seq<u8>>::empty(),
    {
        MemStore { entries: Vec::new() }
    }

    /// The number of stored objects: one location per distinct id.
    pub fn len(&self) -> (n: usize)
        requires
            self.wf(),
        ensures
            n == self@.dom().len(),
    {
        proof {
            lemma_map_of_len(self.entries@);
        }
        self.entries.len()
    }

    /// Stores an object under its content id and returns the id.
    /// Write-once: if the id is already present the store is unchanged.
    pub fn put(&mut self, obj: &Object) -> (id: ObjectId)
        requires
            old(self).wf(),
        ensures
            final(self).wf(),
            id@ == sha1_of(serial_of(obj@)),
            id.wf(),
            final(self)@ == put_model(old(self)@, obj@),
    {
        let plen = obj.size();
        let id = object_id(obj);
        match find_entry(&self.entries, id.bytes.as_slice()) {
            Some(i) => {
                proof {
                    lemma_map_of_contains(self.entries@, id@);
                    assert(self.entries@[i as int].id@ == id@);
                }
                id
            }
            None => {
                proof {
                    lemma_map_of_contains(self.entries@, id@);
                }
                let data = encode_object(obj);
                let id_copy = copy_bytes(id.bytes.as_slice());
                let ghost old_entries = self.entries@;
                self.entries.push(Entry { id: id_copy, data });
                proof {
                    let es = self.entries@;
                    assert(es.drop_last() =~= old_entries);
                    assert(es.last().id@ == id@);
                    assert(es.last().data@ == serial_of(obj@));
                    assert(canonical_entry(es.last())) by {
                        assert(obj@.payload.len() <= usize::MAX);
                        assert(es.last().data@ == serial_of(obj@));
                    }
                    assert(forall|a: int| 0 <= a < es.len() - 1 ==> #[trigger] es[a]
                        == old_entries[a]);
                }
                id
            }
        }
    }

    /// Looks an object up by id, decoding its stored serialization; an
    /// id never stored reports `ObjectNotFound`, never a generic
    /// failure.
    pub fn get(&self, id: &ObjectId) -> (r: Result<Object, StoreError>)
        requires
            self.wf(),
        ensures
            self@.contains_key(id@) ==> r is Ok && serial_of(r.unwrap()@) == self@[id@],
            !self@.contains_key(id@) ==> r == Err::<Object, StoreError>(
                StoreError::ObjectNotFound,
            ),
    {
        match find_entry(&self.entries, id.bytes.as_slice()) {
            None => {
                proof {
                    lemma_map_of_contains(self.entries@, id@);
                }
                Err(StoreError::ObjectNotFound)
            }
            Some(i) => {
                proof {
                    lemma_map_of_contains(self.entries@, id@);
                    lemma_map_of_get(self.entries@, i as int);
                    let o = choose|o: ObjectView|
                        o.payload.len() <= usize::MAX && self.entries@[i as int].data@
                            == serial_of(o);
                    lemma_round_trip(o);
                }
                decode_object(self.entries[i].data.as_slice())
            }
        }
    }
}

/// Idempotent put: storing the same object twice yields the same id,
/// the second put leaves the mapping exactly as the first left it, and
/// the id occupies a single location.
pub proof fn lemma_put_idempotent(m: Map<Seq<u8>, Seq<u8>>, o: ObjectView)
    ensures
        put_model(put_model(m, o), o) == put_model(m, o),
        put_model(m, o).contains_key(sha1_of(serial_of(o))),
        put_model(m, o).dom() =~= m.dom().insert(sha1_of(serial_of(o))),
{
}

/// A put never touches any other id: an id never written stays absent,
/// so `get` on it still reports `ObjectNotFound`.
pub proof fn lemma_put_preserves_absence(m: Map<Seq<u8>, Seq<u8>>, o: ObjectView, id: Seq<u8>)
    requires
        id != sha1_of(serial_of(o)),
        !m.contains_key(id),
    ensures
        !put_model(m, o).contains_key(id),
{
}

} // verus!
