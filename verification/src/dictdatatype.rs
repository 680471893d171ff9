//! The insertion-ordered hash map that backs the dictionary type.
//!
//! A `Dict` is an *entry log* and a *hash index table*. The log holds one
//! entry for every insertion of a new key, in order; an entry that is deleted
//! stays in the log, dead and without its handles, until the table is next
//! rebuilt. The index table is a sparse array of a power of two of slots; a
//! slot is empty, or holds the log position of a live entry, or is the
//! tombstone of a deleted one. A key is looked for along the probe sequence
//! of its hash (see [`crate::probe`]).
//!
//! The state of a dictionary that contracts speak of is its log
//! ([`Dict::log`]), its items ([`Dict::view`]: the live entries of the log, in
//! order) and its version ([`Dict::version`]), a counter that every change to
//! the set of keys advances.

use crate::items::{
    compacted, distinct_keys, first_live_from, has_key, index_of, is_insertion, items_get,
    items_remove, last_live, live_count_from, live_items, rank, Item,
};
use crate::items::{
    lemma_last_live, lemma_live_items_delete, lemma_live_items_len, lemma_live_items_of_all_live,
    lemma_live_items_replace, lemma_live_items_source, lemma_live_items_take,
};
use crate::payload::{HashValue, PyObjectPayload};
use crate::probe::{
    is_capacity, lemma_capacity_double, lemma_capacity_min, lemma_probe_reaches_every_slot,
    probe_slot, GenIndexes, PERTURB_STEPS,
};
use crate::pyobjectrc::PyObjectRc;
use vstd::arithmetic::power2::*;
use vstd::prelude::*;

verus! {

/// The number of slots of a new or cleared table.
pub const MIN_CAPACITY: usize = 8;

/// The version that a dictionary cannot go beyond. A dictionary whose
/// version has come this far accepts no further change to its set of keys.
pub const VERSION_LIMIT: usize = usize::MAX / 8;

/// One slot of the hash index table.
#[derive(Clone, Copy, Debug)]
pub enum IndexSlot {
    /// Never used since the table was last rebuilt: a probe ends here.
    Empty,
    /// The slot of a deleted entry: a probe goes on past it.
    Tombstone,
    /// The slot of the live entry at this position of the log.
    Occupied(usize),
}

/// One entry of the log.
pub struct DictEntry<T> {
    hash: HashValue,
    slot: usize,
    item: Option<Item<T>>,
}

/// What a dictionary is made of, in numbers: a dictionary whose set of keys
/// has changed differs in this from what it was.
#[derive(Clone, Copy, PartialEq, Eq, Structural, Debug)]
pub struct DictSize {
    pub indices_size: usize,
    pub entries_size: usize,
    pub used: usize,
    pub filled: usize,
    pub version: usize,
}

/// Where a key is, or where it would go.
#[derive(Clone, Copy, Debug)]
enum LookupResult {
    /// The key is that of the live entry at log position `entry`, which the
    /// slot `slot` points to.
    Found { entry: usize, slot: usize },
    /// The key is absent. An entry for it would go to `slot`, which has never
    /// been used if `fresh` and is a tombstone otherwise.
    Vacant { slot: usize, fresh: bool },
}

/// Why an operation on a dictionary failed.
pub enum DictError<T> {
    /// The key, which the error carries as an object, is not in the
    /// dictionary.
    KeyNotFound(PyObjectRc<T>),
    /// The set of keys has changed since the iterator was made.
    StructuralChangeDuringIteration,
    /// There is no item to pop.
    EmptyCollectionOnPop,
    /// Hashing or comparing a key failed with the exception that the error
    /// carries.
    Raised(PyObjectRc<T>),
    /// An argument is not of a kind that the operation accepts.
    TypeError(TypeErrorKind),
}

/// What was wrong with an argument.
#[derive(Clone, Copy, PartialEq, Eq, Structural, Debug)]
pub enum TypeErrorKind {
    /// A dictionary has no hash.
    Unhashable,
    /// An element of a sequence of pairs does not have exactly two items.
    NotAPair,
    /// The other operand of a merge is not a dictionary.
    NotADict,
}

/// The insertion-ordered hash map.
pub struct Dict<T> {
    indices: Vec<IndexSlot>,
    entries: Vec<DictEntry<T>>,
    used: usize,
    filled: usize,
    version: usize,
}

/// The bits of a hash, as the probe sequence takes them.
pub open spec fn hash_bits(hash: HashValue) -> u64 {
    hash as u64
}

/// The slots that are not empty.
spec fn count_nonempty(s: Seq<IndexSlot>) -> int
    decreases s.len(),
{
    if s.len() == 0 {
        0
    } else {
        count_nonempty(s.drop_last()) + if s.last() is Empty {
            0int
        } else {
            1int
        }
    }
}

/// The slots that point to an entry.
spec fn count_occupied(s: Seq<IndexSlot>) -> int
    decreases s.len(),
{
    if s.len() == 0 {
        0
    } else {
        count_occupied(s.drop_last()) + if s.last() is Occupied {
            1int
        } else {
            0int
        }
    }
}

/// The first `n` slots of the probe sequence of `hash` are all in use.
spec fn path_used(indices: Seq<IndexSlot>, hash: u64, n: nat) -> bool {
    forall|m: nat|
        m < n ==> !(indices[#[trigger] probe_slot(hash, indices.len() as int, m)] is Empty)
}

/// The probe sequence of `hash` comes to `slot` before it comes to an empty
/// slot.
spec fn reaches(indices: Seq<IndexSlot>, hash: u64, slot: int) -> bool {
    exists|n: nat| #[trigger] probe_slot(hash, indices.len() as int, n) == slot && path_used(indices, hash, n)
}

/// The step at which the probe sequence of `hash` comes to an empty slot.
spec fn probe_end(indices: Seq<IndexSlot>, hash: u64) -> nat {
    choose|n: nat|
        indices[#[trigger] probe_slot(hash, indices.len() as int, n)] is Empty && path_used(
            indices,
            hash,
            n,
        )
}

/// One of the first `n` slots of the probe sequence of `hash` is a tombstone.
spec fn tombstone_before(indices: Seq<IndexSlot>, hash: u64, n: nat) -> bool {
    exists|m: nat|
        m < n && indices[#[trigger] probe_slot(hash, indices.len() as int, m)] is Tombstone
}

/// The log that a sequence of entries stands for.
spec fn entry_log<T>(entries: Seq<DictEntry<T>>) -> Seq<Option<Item<T>>> {
    entries.map_values(|e: DictEntry<T>| e.item)
}

proof fn lemma_count_bounds(s: Seq<IndexSlot>)
    ensures
        0 <= count_occupied(s) <= count_nonempty(s) <= s.len(),
    decreases s.len(),
{
    if s.len() > 0 {
        lemma_count_bounds(s.drop_last());
    }
}

proof fn lemma_count_update(s: Seq<IndexSlot>, i: int, v: IndexSlot)
    requires
        0 <= i < s.len(),
    ensures
        count_nonempty(s.update(i, v)) == count_nonempty(s) - (if s[i] is Empty {
            0int
        } else {
            1int
        }) + (if v is Empty {
            0int
        } else {
            1int
        }),
        count_occupied(s.update(i, v)) == count_occupied(s) - (if s[i] is Occupied {
            1int
        } else {
            0int
        }) + (if v is Occupied {
            1int
        } else {
            0int
        }),
    decreases s.len(),
{
    let after = s.update(i, v);
    if i == s.len() - 1 {
        assert(after.drop_last() == s.drop_last());
    } else {
        lemma_count_update(s.drop_last(), i, v);
        assert(after.drop_last() == s.drop_last().update(i, v));
    }
}

proof fn lemma_count_all_empty(s: Seq<IndexSlot>)
    requires
        forall|i: int| 0 <= i < s.len() ==> (#[trigger] s[i]) is Empty,
    ensures
        count_nonempty(s) == 0,
        count_occupied(s) == 0,
    decreases s.len(),
{
    if s.len() > 0 {
        lemma_count_all_empty(s.drop_last());
    }
}

/// A table that is not full has an empty slot.
proof fn lemma_has_empty_slot(s: Seq<IndexSlot>) -> (i: int)
    requires
        count_nonempty(s) < s.len(),
    ensures
        0 <= i < s.len(),
        s[i] is Empty,
    decreases s.len(),
{
    if s.last() is Empty {
        s.len() - 1
    } else {
        lemma_has_empty_slot(s.drop_last())
    }
}

/// The first empty slot on the probe sequence of `hash`.
fn find_empty(indices: &Vec<IndexSlot>, hash: u64) -> (slot: usize)
    requires
        is_capacity(indices@.len() as int),
        count_nonempty(indices@) < indices@.len(),
    ensures
        slot < indices@.len(),
        indices@[slot as int] is Empty,
        reaches(indices@, hash, slot as int),
{
    let cap = indices.len();
    let mut gen = GenIndexes::new(hash, cap);
    loop
        invariant
            is_capacity(indices@.len() as int),
            count_nonempty(indices@) < indices@.len(),
            cap == indices@.len(),
            gen.inv(),
            gen.hash() == hash,
            gen.capacity() == cap,
            gen.step() < PERTURB_STEPS + cap,
            path_used(indices@, hash, gen.step()),
        decreases PERTURB_STEPS + cap - gen.step(),
    {
        let slot = gen.slot();
        match indices[slot] {
            IndexSlot::Empty => {
                return slot;
            },
            _ => {},
        }
        proof {
            lemma_walk_bound(indices@, hash, gen.step() + 1);
        }
        gen.advance();
    }
}

/// A walk over used slots only, in a table that has an empty slot, has not
/// gone on for long.
proof fn lemma_walk_bound(indices: Seq<IndexSlot>, hash: u64, n: nat)
    requires
        is_capacity(indices.len() as int),
        count_nonempty(indices) < indices.len(),
        path_used(indices, hash, n),
    ensures
        n < PERTURB_STEPS + indices.len(),
{
    let cap = indices.len() as int;
    let e = lemma_has_empty_slot(indices);
    lemma_probe_reaches_every_slot(hash, cap, e);
}

/// A table of `cap` empty slots.
fn empty_table(cap: usize) -> (t: Vec<IndexSlot>)
    ensures
        t@.len() == cap,
        forall|i: int| 0 <= i < cap ==> (#[trigger] t@[i]) is Empty,
{
    let mut t: Vec<IndexSlot> = Vec::new();
    let mut i: usize = 0;
    while i < cap
        invariant
            i <= cap,
            t@.len() == i,
            forall|j: int| 0 <= j < i ==> (#[trigger] t@[j]) is Empty,
        decreases cap - i,
    {
        t.push(IndexSlot::Empty);
        i += 1;
    }
    t
}

/// The capability by which a value serves as a key: it can be hashed,
/// compared with a stored key, and turned into an object to store.
///
/// Hashing and comparing may run code of the hosted language. Such code may
/// fail, in which case the failure is handed back as the exception object,
/// and while comparing it may change the very dictionary that is being
/// searched, which is why `key_eq` is given the dictionary. A key for which
/// `is_pure` holds leaves the dictionary as it is; one for which
/// `is_infallible` holds never fails.
pub trait DictKey<T: PyObjectPayload>: Sized {
    /// What this value is as a dictionary key.
    spec fn key(&self) -> T::Key;

    /// Comparing this key never changes a dictionary.
    spec fn is_pure(&self) -> bool;

    /// Hashing and comparing this key never fail.
    spec fn is_infallible(&self) -> bool;

    /// `exception` is what hashing or comparing this key may fail with.
    spec fn raises(&self, exception: PyObjectRc<T>) -> bool;

    /// The hash of the key. A hash that is returned is the one that the key
    /// has by `T::hash_of`: a key reports the same hash for as long as it is
    /// in a dictionary.
    fn key_hash(&self) -> (r: Result<HashValue, PyObjectRc<T>>)
        ensures
            self.is_infallible() ==> r is Ok,
            r matches Ok(h) ==> h == T::hash_of(self.key()),
            r matches Err(e) ==> self.raises(e),
    ;

    /// Whether this key is known to be `other` without comparing: an
    /// implementation that answers `true` has found the very same object.
    fn key_is(&self, other: &PyObjectRc<T>) -> (r: bool)
        ensures
            r ==> other@.key() == self.key(),
    ;

    /// Whether this key is the same key as the stored key `other`. The
    /// dictionary that is being searched is `dict`; whatever is done to it,
    /// it stays well formed, its version does not go back, and if it could
    /// take another change to its keys before the call it can after it.
    fn key_eq(&self, other: &PyObjectRc<T>, dict: &mut Dict<T>) -> (r: Result<
        bool,
        PyObjectRc<T>,
    >)
        requires
            old(dict).wf(),
        ensures
            final(dict).wf(),
            old(dict).evolves_to(final(dict)),
            old(dict).version() < VERSION_LIMIT ==> final(dict).version() < VERSION_LIMIT,
            self.is_pure() ==> *final(dict) == *old(dict),
            self.is_infallible() ==> r is Ok,
            r matches Ok(b) ==> b == (other@.key() == self.key()),
            r matches Err(e) ==> self.raises(e),
    ;

    /// The object that is stored for this key.
    fn into_pyobject(self) -> (r: PyObjectRc<T>)
        ensures
            r@.key() == self.key(),
    ;
}

impl<T: PyObjectPayload> Dict<T> {
    /// The entry log: at each position the item of the entry made there, or
    /// `None` if that entry has been deleted.
    pub closed spec fn log(&self) -> Seq<Option<Item<T>>> {
        entry_log(self.entries@)
    }

    /// The items of the dictionary, in the order of first insertion.
    pub open spec fn view(&self) -> Seq<Item<T>> {
        live_items(self.log())
    }

    /// The number of changes to the set of keys that the dictionary has
    /// undergone.
    pub closed spec fn version(&self) -> nat {
        self.version as nat
    }

    /// The number of slots of the index table.
    pub closed spec fn capacity(&self) -> nat {
        self.indices@.len()
    }

    /// The number of slots in use: those of the live entries and the
    /// tombstones.
    pub closed spec fn used_slots(&self) -> nat {
        self.filled as nat
    }

    /// The slot the index table holds at `s`.
    pub closed spec fn slot_at(&self, s: int) -> IndexSlot {
        self.indices@[s]
    }

    /// The numbers that `size` reports.
    pub open spec fn size_spec(&self) -> DictSize {
        DictSize {
            indices_size: self.capacity() as usize,
            entries_size: self.log().len() as usize,
            used: self.view().len() as usize,
            filled: self.used_slots() as usize,
            version: self.version() as usize,
        }
    }

    spec fn counts_ok(&self) -> bool {
        &&& self.used == count_occupied(self.indices@)
        &&& self.used == live_items(self.log()).len()
        &&& self.filled == count_nonempty(self.indices@)
        &&& self.filled * 3 <= self.indices@.len() * 2
        &&& self.filled <= self.version <= VERSION_LIMIT
        &&& self.entries@.len() <= self.version
        &&& self.indices@.len() <= 3 * self.version || self.indices@.len() == MIN_CAPACITY
    }

    spec fn slots_ok(&self) -> bool {
        forall|s: int|
            0 <= s < self.indices@.len() ==> (#[trigger] self.indices@[s] matches IndexSlot::Occupied(
                i,
            ) ==> i < self.entries@.len() && self.entries@[i as int].item is Some
                && self.entries@[i as int].slot == s)
    }

    spec fn entry_ok(&self, i: int) -> bool {
        let e = self.entries@[i];
        match e.item {
            Some(item) => {
                &&& e.slot < self.indices@.len()
                &&& self.indices@[e.slot as int] == IndexSlot::Occupied(i as usize)
                &&& e.hash == T::hash_of(item.0@.key())
                &&& reaches(self.indices@, hash_bits(e.hash), e.slot as int)
            },
            None => true,
        }
    }

    spec fn entries_ok(&self) -> bool {
        forall|i: int| 0 <= i < self.entries@.len() ==> #[trigger] self.entry_ok(i)
    }

    spec fn keys_ok(&self) -> bool {
        forall|i: int, j: int|
            0 <= i < j < self.entries@.len() ==> ((#[trigger] self.entries@[i]).item matches Some(
                a,
            ) ==> ((#[trigger] self.entries@[j]).item matches Some(b) ==> a.0@.key() != b.0@.key()))
    }

    /// The dictionary is well formed: the index table leads to every live
    /// entry along the probe sequence of its key's hash, no two live entries
    /// have the same key, at most two thirds of the slots are in use, and the
    /// version is within its limit.
    pub closed spec fn wf(&self) -> bool {
        &&& is_capacity(self.indices@.len() as int)
        &&& self.counts_ok()
        &&& self.slots_ok()
        &&& self.entries_ok()
        &&& self.keys_ok()
    }

    /// No change to the set of keys lies between this dictionary and
    /// `next`: the index table, the log positions, and the key and liveness
    /// of every entry are the same. Values may differ.
    pub closed spec fn same_keys(&self, next: &Self) -> bool {
        &&& next.indices@ == self.indices@
        &&& next.used == self.used
        &&& next.filled == self.filled
        &&& next.version == self.version
        &&& next.entries@.len() == self.entries@.len()
        &&& forall|i: int|
            0 <= i < self.entries@.len() ==> {
                let a = #[trigger] self.entries@[i];
                let b = next.entries@[i];
                &&& a.hash == b.hash
                &&& a.slot == b.slot
                &&& a.item is Some <==> b.item is Some
                &&& a.item matches Some(x) ==> (b.item matches Some(y) && x.0 == y.0)
            }
    }

    /// `next` is a later state of this dictionary: its version is no
    /// smaller, and if it is the same then so is the set of keys.
    pub open spec fn evolves_to(&self, next: &Self) -> bool {
        &&& self.version() <= next.version()
        &&& self.version() == next.version() ==> self.same_keys(next)
    }

    /// Whether an entry for a new key with the hash `hash` would go to a slot
    /// that has never been used (rather than to a tombstone).
    pub closed spec fn inserts_fresh(&self, hash: HashValue) -> bool {
        !tombstone_before(
            self.indices@,
            hash_bits(hash),
            probe_end(self.indices@, hash_bits(hash)),
        )
    }

    /// Whether no live entry has the key `k`.
    spec fn lacks(&self, k: T::Key) -> bool {
        forall|i: int|
            0 <= i < self.entries@.len() ==> ((#[trigger] self.entries@[i]).item matches Some(it)
                ==> it.0@.key() != k)
    }

    /// `res` is where the key `k` with the hash `hash` is to be found, or
    /// where it would go.
    spec fn locates(&self, k: T::Key, hash: HashValue, res: LookupResult) -> bool {
        match res {
            LookupResult::Found { entry, slot } => {
                &&& entry < self.entries@.len()
                &&& self.entries@[entry as int].slot == slot
                &&& self.entries@[entry as int].item matches Some(it) && it.0@.key() == k
            },
            LookupResult::Vacant { slot, fresh } => {
                &&& self.lacks(k)
                &&& slot < self.indices@.len()
                &&& reaches(self.indices@, hash_bits(hash), slot as int)
                &&& fresh == self.inserts_fresh(hash)
                &&& if fresh {
                    self.indices@[slot as int] is Empty
                } else {
                    self.indices@[slot as int] is Tombstone
                }
            },
        }
    }

    /// Dictionaries with the same keys have the same numbers, and their logs
    /// are live at the same positions, with the same key objects.
    pub proof fn lemma_same_keys(&self, next: &Self)
        requires
            self.same_keys(next),
        ensures
            next.version() == self.version(),
            next.capacity() == self.capacity(),
            next.used_slots() == self.used_slots(),
            next.log().len() == self.log().len(),
            forall|i: int|
                0 <= i < self.log().len() ==> ((#[trigger] self.log()[i]) is Some <==> next.log()[i] is Some),
            forall|i: int|
                0 <= i < self.log().len() ==> ((#[trigger] self.log()[i]) matches Some(a) ==> (
                next.log()[i] matches Some(b) && a.0 == b.0)),
    {
    }

    /// `evolves_to` holds of a dictionary and itself, and of the first and the
    /// last of three states if it holds of the first two and the last two.
    pub proof fn lemma_evolves(a: &Self, b: &Self, c: &Self)
        ensures
            a.evolves_to(a),
            a.evolves_to(b) && b.evolves_to(c) ==> a.evolves_to(c),
    {
    }

    /// A new, empty dictionary.
    pub fn new() -> (d: Self)
        ensures
            d.wf(),
            d.log() == Seq::<Option<Item<T>>>::empty(),
            d.version() == 0,
            d.capacity() == MIN_CAPACITY,
            d.used_slots() == 0,
    {
        let indices = empty_table(MIN_CAPACITY);
        let d = Dict { indices, entries: Vec::new(), used: 0, filled: 0, version: 0 };
        proof {
            lemma2_to64();
            lemma_count_all_empty(d.indices@);
        }
        d
    }

    /// The key handle of the live entry at log position `i`.
    fn key_at(&self, i: usize) -> (k: PyObjectRc<T>)
        requires
            i < self.entries@.len(),
            self.entries@[i as int].item is Some,
        ensures
            self.entries@[i as int].item matches Some(it) && it.0 == k,
    {
        match &self.entries[i].item {
            Some(it) => it.0.clone(),
            None => vstd::pervasive::unreached(),
        }
    }

    /// Walks the probe sequence of `hash` once. `Ok(None)` says that a
    /// comparison has changed the set of keys, so that the walk has to start
    /// again.
    fn probe<K: DictKey<T>>(&mut self, key: &K, hash: HashValue) -> (r: Result<
        Option<LookupResult>,
        PyObjectRc<T>,
    >)
        requires
            old(self).wf(),
            hash == T::hash_of(key.key()),
        ensures
            final(self).wf(),
            old(self).evolves_to(final(self)),
            old(self).version() < VERSION_LIMIT ==> final(self).version() < VERSION_LIMIT,
            key.is_pure() ==> *final(self) == *old(self),
            key.is_infallible() ==> r is Ok,
            match r {
                Ok(Some(res)) => final(self).locates(key.key(), hash, res),
                Ok(None) => final(self).version() > old(self).version(),
                Err(e) => key.raises(e),
            },
    {
        let ghost hb = hash_bits(hash);
        let ghost k = key.key();
        let v0 = self.version;
        let cap = self.indices.len();
        let mut gen = GenIndexes::new(#[verifier::truncate] (hash as u64), cap);
        let mut freeslot: Option<usize> = None;
        loop
            invariant
                self.wf(),
                old(self).evolves_to(self),
                old(self).version() < VERSION_LIMIT ==> self.version() < VERSION_LIMIT,
                key.is_pure() ==> *self == *old(self),
                hash == T::hash_of(k),
                k == key.key(),
                hb == hash_bits(hash),
                self.version == v0,
                cap == self.indices@.len(),
                gen.inv(),
                gen.hash() == hb,
                gen.capacity() == cap,
                gen.step() < PERTURB_STEPS + cap,
                path_used(self.indices@, hb, gen.step()),
                self.no_match_before(k, hb, gen.step()),
                freeslot is None <==> !tombstone_before(self.indices@, hb, gen.step()),
                freeslot matches Some(f) ==> f < cap && self.indices@[f as int] is Tombstone
                    && reaches(self.indices@, hb, f as int),
            decreases PERTURB_STEPS + cap - gen.step(),
        {
            let ghost n = gen.step();
            let slot = gen.slot();
            match self.indices[slot] {
                IndexSlot::Empty => {
                    proof {
                        self.lemma_lacks(k, hb, n);
                    }
                    return Ok(
                        Some(
                            match freeslot {
                                Some(f) => LookupResult::Vacant { slot: f, fresh: false },
                                None => LookupResult::Vacant { slot, fresh: true },
                            },
                        ),
                    );
                },
                IndexSlot::Tombstone => {
                    if freeslot.is_none() {
                        freeslot = Some(slot);
                    }
                },
                IndexSlot::Occupied(i) => {
                    proof {
                        assert(self.entry_ok(i as int));
                    }
                    if self.entries[i].hash == hash {
                        let stored = self.key_at(i);
                        if key.key_is(&stored) {
                            return Ok(Some(LookupResult::Found { entry: i, slot }));
                        }
                        let eq = match key.key_eq(&stored, self) {
                            Ok(b) => b,
                            Err(e) => {
                                return Err(e);
                            },
                        };
                        if self.version != v0 {
                            return Ok(None);
                        }
                        if eq {
                            return Ok(Some(LookupResult::Found { entry: i, slot }));
                        }
                    }
                },
            }
            proof {
                self.lemma_probe_bound(hb, n + 1);
            }
            gen.advance();
        }
    }

    /// Looks for `key`, whose hash is `hash`.
    fn lookup<K: DictKey<T>>(&mut self, key: &K, hash: HashValue) -> (r: Result<
        LookupResult,
        PyObjectRc<T>,
    >)
        requires
            old(self).wf(),
            hash == T::hash_of(key.key()),
        ensures
            final(self).wf(),
            old(self).evolves_to(final(self)),
            old(self).version() < VERSION_LIMIT ==> final(self).version() < VERSION_LIMIT,
            key.is_pure() ==> *final(self) == *old(self),
            key.is_infallible() ==> r is Ok,
            r matches Ok(res) ==> final(self).locates(key.key(), hash, res),
            r matches Err(e) ==> key.raises(e),
    {
        loop
            invariant
                self.wf(),
                old(self).evolves_to(self),
                old(self).version() < VERSION_LIMIT ==> self.version() < VERSION_LIMIT,
                key.is_pure() ==> *self == *old(self),
                hash == T::hash_of(key.key()),
            decreases VERSION_LIMIT - self.version,
        {
            let step = self.probe(key, hash);
            match step {
                Ok(Some(res)) => {
                    return Ok(res);
                },
                Ok(None) => {},
                Err(e) => {
                    return Err(e);
                },
            }
        }
    }

    /// None of the first `n` slots of the probe sequence of `hb` points to an
    /// entry with the key `k`.
    spec fn no_match_before(&self, k: T::Key, hb: u64, n: nat) -> bool {
        forall|m: nat|
            m < n ==> (self.indices@[#[trigger] probe_slot(hb, self.indices@.len() as int, m)] matches IndexSlot::Occupied(
                i,
            ) ==> (self.entries@[i as int].item matches Some(it) ==> it.0@.key() != k))
    }

    /// A walk that has met used slots only has not gone on for long.
    proof fn lemma_probe_bound(&self, hb: u64, n: nat)
        requires
            self.wf(),
            path_used(self.indices@, hb, n),
        ensures
            n < PERTURB_STEPS + self.indices@.len(),
    {
        lemma_capacity_min(self.indices@.len() as int);
        lemma_walk_bound(self.indices@, hb, n);
    }

    /// A walk that ends at an empty slot without a match has shown that the
    /// key is absent.
    proof fn lemma_lacks(&self, k: T::Key, hb: u64, n: nat)
        requires
            self.wf(),
            path_used(self.indices@, hb, n),
            self.no_match_before(k, hb, n),
            self.indices@[probe_slot(hb, self.indices@.len() as int, n)] is Empty,
            hb == hash_bits(T::hash_of(k)),
        ensures
            self.lacks(k),
    {
        let cap = self.indices@.len() as int;
        assert forall|i: int| 0 <= i < self.entries@.len() implies ((
        #[trigger] self.entries@[i]).item matches Some(it) ==> it.0@.key() != k) by {
            let e = self.entries@[i];
            if e.item matches Some(it) && it.0@.key() == k {
                assert(self.entry_ok(i));
                let m = choose|m: nat| #[trigger]
                    probe_slot(hb, cap, m) == e.slot as int && path_used(self.indices@, hb, m);
            }
        }
    }

    /// Advances the version.
    fn bump_version(&mut self)
        requires
            old(self).wf(),
            old(self).version() < VERSION_LIMIT,
        ensures
            final(self).wf(),
            final(self).version() == old(self).version() + 1,
            final(self).indices@ == old(self).indices@,
            final(self).entries@ == old(self).entries@,
            final(self).used == old(self).used,
            final(self).filled == old(self).filled,
    {
        self.version = self.version + 1;
        proof {
            assert forall|i: int| 0 <= i < self.entries@.len() implies #[trigger] self.entry_ok(
                i,
            ) by {
                assert(old(self).entry_ok(i));
            }
        }
    }

    /// Puts `value` in place of the value of the live entry at log position
    /// `entry`, and hands the old value back.
    fn set_value(&mut self, entry: usize, value: PyObjectRc<T>) -> (replaced: PyObjectRc<T>)
        requires
            old(self).wf(),
            entry < old(self).log().len(),
            old(self).log()[entry as int] is Some,
        ensures
            final(self).wf(),
            old(self).same_keys(final(self)),
            old(self).log()[entry as int] matches Some(it) && replaced == it.1 && final(self).log()
                == old(self).log().update(entry as int, Some((it.0, value))),
    {
        let taken = self.entries[entry].item.take();
        match taken {
            Some((key, replaced)) => {
                self.entries[entry].item = Some((key, value));
                proof {
                    assert(self.log() == old(self).log().update(entry as int, Some((key, value))));
                    lemma_live_items_replace(old(self).log(), entry as int, (key, value));
                    lemma_live_items_take(old(self).log(), entry as int);
                    assert forall|i: int| 0 <= i < self.entries@.len() implies #[trigger] self.entry_ok(
                        i,
                    ) by {
                        assert(old(self).entry_ok(i));
                    }
                }
                replaced
            },
            None => vstd::pervasive::unreached(),
        }
    }

    /// Deletes the live entry at log position `entry`, to which the slot
    /// `slot` points, and hands its item back.
    fn remove_entry(&mut self, entry: usize, slot: usize) -> (item: Item<T>)
        requires
            old(self).wf(),
            old(self).version() < VERSION_LIMIT,
            entry < old(self).log().len(),
            old(self).log()[entry as int] is Some,
            old(self).entries@[entry as int].slot == slot,
        ensures
            final(self).wf(),
            final(self).version() == old(self).version() + 1,
            final(self).capacity() == old(self).capacity(),
            final(self).used_slots() == old(self).used_slots(),
            final(self).log() == old(self).log().update(entry as int, None),
            old(self).log()[entry as int] == Some(item),
    {
        proof {
            assert(self.entry_ok(entry as int));
            lemma_live_items_take(self.log(), entry as int);
        }
        let taken = self.entries[entry].item.take();
        self.indices[slot] = IndexSlot::Tombstone;
        self.used = self.used - 1;
        self.version = self.version + 1;
        proof {
            let before = old(self);
            assert(self.log() == before.log().update(entry as int, None));
            lemma_live_items_delete(before.log(), entry as int);
            lemma_count_update(before.indices@, slot as int, IndexSlot::Tombstone);
            assert forall|i: int| 0 <= i < self.entries@.len() implies #[trigger] self.entry_ok(
                i,
            ) by {
                assert(before.entry_ok(i));
            }
        }
        match taken {
            Some(item) => item,
            None => vstd::pervasive::unreached(),
        }
    }

    /// Appends an entry for `key`, which is absent, and lets `slot` point to
    /// it.
    fn place(
        &mut self,
        slot: usize,
        fresh: bool,
        hash: HashValue,
        key: PyObjectRc<T>,
        value: PyObjectRc<T>,
    )
        requires
            old(self).wf(),
            old(self).lacks(key@.key()),
            hash == T::hash_of(key@.key()),
            slot < old(self).capacity(),
            reaches(old(self).indices@, hash_bits(hash), slot as int),
            if fresh {
                old(self).indices@[slot as int] is Empty
            } else {
                old(self).indices@[slot as int] is Tombstone
            },
            fresh ==> (old(self).used_slots() + 1) * 3 <= old(self).capacity() * 2,
            fresh ==> old(self).used_slots() < old(self).version(),
            old(self).log().len() < old(self).version(),
        ensures
            final(self).wf(),
            final(self).version() == old(self).version(),
            final(self).capacity() == old(self).capacity(),
            final(self).used_slots() == old(self).used_slots() + if fresh {
                1int
            } else {
                0int
            },
            final(self).log() == old(self).log().push(Some((key, value))),
    {
        proof {
            lemma_count_bounds(self.indices@);
        }
        let position = self.entries.len();
        self.entries.push(DictEntry { hash, slot, item: Some((key, value)) });
        self.indices[slot] = IndexSlot::Occupied(position);
        self.used = self.used + 1;
        if fresh {
            self.filled = self.filled + 1;
        }
        proof {
            let before = old(self);
            assert(self.log().drop_last() == before.log());
            lemma_count_update(before.indices@, slot as int, IndexSlot::Occupied(position));
            assert forall|i: int| 0 <= i < self.entries@.len() implies #[trigger] self.entry_ok(
                i,
            ) by {
                if i < position {
                    assert(before.entry_ok(i));
                }
            }
        }
    }

    /// The index table has no tombstone.
    pub closed spec fn no_tombstones(&self) -> bool {
        forall|s: int| 0 <= s < self.indices@.len() ==> !((#[trigger] self.indices@[s]) is Tombstone)
    }

    /// Rebuilds the index table with twice the slots from the live entries,
    /// in log order, and drops the dead entries from the log.
    fn grow(&mut self)
        requires
            old(self).wf(),
            old(self).capacity() * 2 < 3 * old(self).version(),
        ensures
            final(self).wf(),
            final(self).version() == old(self).version(),
            final(self).capacity() == 2 * old(self).capacity(),
            final(self).log() == compacted(old(self).log()),
            final(self)@ == old(self)@,
            final(self).used_slots() == old(self)@.len(),
            final(self).no_tombstones(),
    {
        let ghost olog = self.log();
        let ghost oentries = self.entries@;
        let cap = self.indices.len();
        proof {
            lemma_capacity_double(cap as int);
            lemma_count_bounds(self.indices@);
        }
        let new_cap = cap * 2;
        let mut indices = empty_table(new_cap);
        let mut entries: Vec<DictEntry<T>> = Vec::new();
        let mut old_entries: Vec<DictEntry<T>> = Vec::new();
        std::mem::swap(&mut self.entries, &mut old_entries);
        let mut i: usize = 0;
        proof {
            lemma_count_all_empty(indices@);
        }
        while i < old_entries.len()
            invariant
                old(self).wf(),
                olog == old(self).log(),
                oentries == old(self).entries@,
                cap == old(self).indices@.len(),
                new_cap == 2 * cap,
                is_capacity(new_cap as int),
                i <= old_entries@.len(),
                old_entries@.len() == oentries.len(),
                forall|j: int| i <= j < oentries.len() ==> #[trigger] old_entries@[j] == oentries[j],
                indices@.len() == new_cap,
                entry_log(entries@) == compacted(olog.take(i as int)),
                entries@.len() == rank(olog, i as int),
                count_nonempty(indices@) == entries@.len(),
                count_occupied(indices@) == entries@.len(),
                forall|s: int|
                    0 <= s < new_cap ==> !((#[trigger] indices@[s]) is Tombstone) && (
                    indices@[s] matches IndexSlot::Occupied(p) ==> p < entries@.len()
                        && entries@[p as int].slot == s),
                forall|p: int|
                    0 <= p < entries@.len() ==> {
                        let e = #[trigger] entries@[p];
                        &&& e.slot < new_cap
                        &&& indices@[e.slot as int] == IndexSlot::Occupied(p as usize)
                        &&& reaches(indices@, hash_bits(e.hash), e.slot as int)
                        &&& e.item matches Some(it) && e.hash == T::hash_of(it.0@.key())
                    },
            decreases old_entries@.len() - i,
        {
            proof {
                lemma_live_items_take(olog, i as int);
                assert(old(self).entry_ok(i as int));
                assert(olog.take(i + 1).drop_last() == olog.take(i as int));
                lemma_count_bounds(old(self).indices@);
            }
            let hash = old_entries[i].hash;
            let taken = old_entries[i].item.take();
            match taken {
                Some(item) => {
                    let slot = find_empty(&indices, #[verifier::truncate] (hash as u64));
                    let position = entries.len();
                    let ghost indices_before = indices@;
                    indices[slot] = IndexSlot::Occupied(position);
                    entries.push(DictEntry { hash, slot, item: Some(item) });
                    proof {
                        lemma_count_update(indices_before, slot as int, IndexSlot::Occupied(position));
                        assert(compacted(olog.take(i + 1)) =~= compacted(olog.take(i as int)).push(
                            Some(item),
                        ));
                    }
                },
                None => {},
            }
            i += 1;
        }
        self.indices = indices;
        self.entries = entries;
        self.filled = self.used;
        proof {
            assert(olog.take(i as int) == olog);
            lemma_live_items_of_all_live(live_items(olog));
            old(self).lemma_distinct();
            assert(self.keys_ok()) by {
                assert forall|a: int, b: int| 0 <= a < b < self.entries@.len() implies ((
                #[trigger] self.entries@[a]).item matches Some(x) ==> ((
                #[trigger] self.entries@[b]).item matches Some(y) ==> x.0@.key() != y.0@.key())) by {
                    assert(self.log()[a] == Some(live_items(olog)[a]));
                    assert(self.log()[b] == Some(live_items(olog)[b]));
                }
            }
        }
    }

    /// No two items have the same key.
    pub proof fn lemma_distinct(&self)
        requires
            self.wf(),
        ensures
            distinct_keys(self@),
    {
        let log = self.log();
        assert forall|a: int, b: int| 0 <= a < b < self@.len() implies (#[trigger] self@[a]).0@.key()
            != (#[trigger] self@[b]).0@.key() by {
            let ia = lemma_live_items_source(log, a);
            let ib = lemma_live_items_source(log, b);
        }
    }

    /// The key of a live entry is a key of the items, at the rank of the
    /// entry.
    proof fn lemma_found(&self, entry: int)
        requires
            self.wf(),
            0 <= entry < self.log().len(),
            self.log()[entry] is Some,
        ensures
            self.log()[entry] matches Some(it) && has_key(self@, it.0@.key()) && index_of(
                self@,
                it.0@.key(),
            ) == rank(self.log(), entry) && self@[rank(self.log(), entry)] == it && items_get(
                self@,
                it.0@.key(),
            ) == Some(it.1),
    {
        lemma_live_items_take(self.log(), entry);
        self.lemma_distinct();
    }

    /// A key that no live entry has is no key of the items, and the other
    /// way round.
    proof fn lemma_lacks_view(&self, k: T::Key)
        requires
            self.wf(),
        ensures
            self.lacks(k) <==> !has_key(self@, k),
    {
        let log = self.log();
        if has_key(self@, k) {
            let j = index_of(self@, k);
            let i = lemma_live_items_source(log, j);
        }
        if !self.lacks(k) {
            let i = choose|i: int|
                0 <= i < self.entries@.len() && ((#[trigger] self.entries@[i]).item matches Some(it)
                    && it.0@.key() == k);
            self.lemma_found(i);
        }
    }

    /// Whether storing a new key with the hash `hash` makes the dictionary
    /// rebuild its index table with twice the slots.
    pub open spec fn grows_on(&self, hash: HashValue) -> bool {
        self.inserts_fresh(hash) && (self.used_slots() + 1) * 3 > self.capacity() * 2
    }

    /// `next` is this dictionary after `value` has been stored under the key
    /// `k`. A key that is present keeps its place and its stored key object,
    /// and nothing but its value changes. A key that is absent is appended to
    /// the log, after the index table has been rebuilt if `grows_on` says so,
    /// and the version advances by one.
    pub open spec fn inserted(&self, next: &Self, k: T::Key, value: PyObjectRc<T>) -> bool {
        &&& is_insertion(self@, next@, k, value)
        &&& if has_key(self@, k) {
            self.same_keys(next) && next.version() == self.version()
        } else {
            &&& next.version() == self.version() + 1
            &&& next.log().drop_last() == if self.grows_on(T::hash_of(k)) {
                compacted(self.log())
            } else {
                self.log()
            }
            &&& next.capacity() == if self.grows_on(T::hash_of(k)) {
                2 * self.capacity()
            } else {
                self.capacity()
            }
        }
    }

    /// `next` is this dictionary after the key `k`, which is present, has
    /// been deleted: its entry is dead, its slot a tombstone, and the version
    /// has advanced by one.
    pub open spec fn removed(&self, next: &Self, k: T::Key) -> bool {
        &&& has_key(self@, k)
        &&& next@ == items_remove(self@, k)
        &&& next.version() == self.version() + 1
        &&& next.capacity() == self.capacity()
        &&& next.used_slots() == self.used_slots()
        &&& next.log().len() == self.log().len()
    }

    /// `next` is this dictionary after its last item, `item`, has been
    /// deleted.
    pub open spec fn popped(&self, next: &Self, item: Item<T>) -> bool {
        &&& self@.len() > 0
        &&& item == self@.last()
        &&& next@ == self@.drop_last()
        &&& next.version() == self.version() + 1
        &&& next.capacity() == self.capacity()
        &&& next.used_slots() == self.used_slots()
        &&& next.log().len() == self.log().len()
    }

    /// The value stored under `key`, if there is one.
    pub fn get<K: DictKey<T>>(&mut self, key: &K) -> (r: Result<Option<PyObjectRc<T>>, DictError<T>>)
        requires
            old(self).wf(),
        ensures
            final(self).wf(),
            old(self).evolves_to(final(self)),
            old(self).version() < VERSION_LIMIT ==> final(self).version() < VERSION_LIMIT,
            key.is_pure() ==> *final(self) == *old(self),
            key.is_infallible() ==> r is Ok,
            match r {
                Ok(found) => found == items_get(final(self)@, key.key()),
                Err(DictError::Raised(e)) => key.raises(e),
                Err(_) => false,
            },
    {
        let hashed = key.key_hash();
        self.get_hashed(key, hashed)
    }

    /// The value stored under `key`, if there is one, where hashing the key
    /// has given `hashed`. A hash that failed is handed on as it is, and the
    /// dictionary is not touched.
    pub fn get_hashed<K: DictKey<T>>(
        &mut self,
        key: &K,
        hashed: Result<HashValue, PyObjectRc<T>>,
    ) -> (r: Result<Option<PyObjectRc<T>>, DictError<T>>)
        requires
            old(self).wf(),
            hashed matches Ok(h) ==> h == T::hash_of(key.key()),
        ensures
            hashed matches Err(e) ==> (r matches Err(DictError::Raised(x)) && x == e)
                && *final(self) == *old(self),
            final(self).wf(),
            old(self).evolves_to(final(self)),
            old(self).version() < VERSION_LIMIT ==> final(self).version() < VERSION_LIMIT,
            key.is_pure() ==> *final(self) == *old(self),
            key.is_infallible() && hashed is Ok ==> r is Ok,
            match r {
                Ok(found) => found == items_get(final(self)@, key.key()),
                Err(DictError::Raised(e)) => key.raises(e) || (hashed matches Err(h) && h == e),
                Err(_) => false,
            },
    {
        let hash = match hashed {
            Ok(h) => h,
            Err(e) => {
                return Err(DictError::Raised(e));
            },
        };
        match self.lookup(key, hash) {
            Ok(LookupResult::Found { entry, slot }) => {
                proof {
                    self.lemma_found(entry as int);
                }
                match &self.entries[entry].item {
                    Some(it) => Ok(Some(it.1.clone())),
                    None => vstd::pervasive::unreached(),
                }
            },
            Ok(LookupResult::Vacant { slot, fresh }) => {
                proof {
                    self.lemma_lacks_view(key.key());
                }
                Ok(None)
            },
            Err(e) => Err(DictError::Raised(e)),
        }
    }

    /// Whether `key` is in the dictionary.
    pub fn contains<K: DictKey<T>>(&mut self, key: &K) -> (r: Result<bool, DictError<T>>)
        requires
            old(self).wf(),
        ensures
            final(self).wf(),
            old(self).evolves_to(final(self)),
            old(self).version() < VERSION_LIMIT ==> final(self).version() < VERSION_LIMIT,
            key.is_pure() ==> *final(self) == *old(self),
            key.is_infallible() ==> r is Ok,
            match r {
                Ok(found) => found == has_key(final(self)@, key.key()),
                Err(DictError::Raised(e)) => key.raises(e),
                Err(_) => false,
            },
    {
        let hashed = key.key_hash();
        self.contains_hashed(key, hashed)
    }

    /// Whether `key` is in the dictionary, where hashing the key has given
    /// `hashed`. A hash that failed is handed on as it is, and the dictionary
    /// is not touched.
    pub fn contains_hashed<K: DictKey<T>>(
        &mut self,
        key: &K,
        hashed: Result<HashValue, PyObjectRc<T>>,
    ) -> (r: Result<bool, DictError<T>>)
        requires
            old(self).wf(),
            hashed matches Ok(h) ==> h == T::hash_of(key.key()),
        ensures
            hashed matches Err(e) ==> (r matches Err(DictError::Raised(x)) && x == e)
                && *final(self) == *old(self),
            final(self).wf(),
            old(self).evolves_to(final(self)),
            old(self).version() < VERSION_LIMIT ==> final(self).version() < VERSION_LIMIT,
            key.is_pure() ==> *final(self) == *old(self),
            key.is_infallible() && hashed is Ok ==> r is Ok,
            match r {
                Ok(found) => found == has_key(final(self)@, key.key()),
                Err(DictError::Raised(e)) => key.raises(e) || (hashed matches Err(h) && h == e),
                Err(_) => false,
            },
    {
        let hash = match hashed {
            Ok(h) => h,
            Err(e) => {
                return Err(DictError::Raised(e));
            },
        };
        match self.lookup(key, hash) {
            Ok(LookupResult::Found { entry, slot }) => {
                proof {
                    self.lemma_found(entry as int);
                }
                Ok(true)
            },
            Ok(LookupResult::Vacant { slot, fresh }) => {
                proof {
                    self.lemma_lacks_view(key.key());
                }
                Ok(false)
            },
            Err(e) => Err(DictError::Raised(e)),
        }
    }

    /// Stores `value` under `key`. A key that is present keeps its place and
    /// its stored key object, and the version stays as it is; a key that is
    /// absent is appended and the version advances.
    pub fn insert<K: DictKey<T>>(&mut self, key: K, value: PyObjectRc<T>) -> (r: Result<
        (),
        DictError<T>,
    >)
        requires
            old(self).wf(),
            old(self).version() < VERSION_LIMIT,
        ensures
            final(self).wf(),
            old(self).evolves_to(final(self)),
            key.is_infallible() ==> r is Ok,
            match r {
                Ok(()) => items_get(final(self)@, key.key()) == Some(value),
                Err(DictError::Raised(e)) => key.raises(e),
                Err(_) => false,
            },
            key.is_pure() ==> match r {
                Ok(()) => old(self).inserted(final(self), key.key(), value),
                Err(_) => *final(self) == *old(self),
            },
    {
        let hashed = key.key_hash();
        self.insert_hashed(key, hashed, value)
    }

    /// Stores `value` under `key`, where hashing the key has given `hashed`.
    /// A hash that failed is handed on as it is, and the dictionary is not
    /// touched.
    pub fn insert_hashed<K: DictKey<T>>(
        &mut self,
        key: K,
        hashed: Result<HashValue, PyObjectRc<T>>,
        value: PyObjectRc<T>,
    ) -> (r: Result<(), DictError<T>>)
        requires
            old(self).wf(),
            hashed matches Ok(h) ==> h == T::hash_of(key.key()),
            old(self).version() < VERSION_LIMIT,
        ensures
            hashed matches Err(e) ==> (r matches Err(DictError::Raised(x)) && x == e)
                && *final(self) == *old(self),
            final(self).wf(),
            old(self).evolves_to(final(self)),
            key.is_infallible() && hashed is Ok ==> r is Ok,
            match r {
                Ok(()) => items_get(final(self)@, key.key()) == Some(value),
                Err(DictError::Raised(e)) => key.raises(e) || (hashed matches Err(h) && h == e),
                Err(_) => false,
            },
            key.is_pure() ==> match r {
                Ok(()) => old(self).inserted(final(self), key.key(), value),
                Err(_) => *final(self) == *old(self),
            },
    {
        let hash = match hashed {
            Ok(h) => h,
            Err(e) => {
                return Err(DictError::Raised(e));
            },
        };
        let found = match self.lookup(&key, hash) {
            Ok(res) => res,
            Err(e) => {
                return Err(DictError::Raised(e));
            },
        };
        let ghost mid = *self;
        proof {
            self.lemma_lacks_view(key.key());
        }
        match found {
            LookupResult::Found { entry, slot } => {
                proof {
                    self.lemma_found(entry as int);
                }
                let _replaced = self.set_value(entry, value);
                proof {
                    let it = mid.log()[entry as int]->0;
                    lemma_live_items_replace(mid.log(), entry as int, (it.0, value));
                    self.lemma_found(entry as int);
                }
            },
            LookupResult::Vacant { slot, fresh } => {
                let stored = key.into_pyobject();
                self.bump_version();
                let cap = self.indices.len();
                let grows = fresh && (self.filled + 1) * 3 > cap * 2;
                let (slot, fresh) = if grows {
                    proof {
                        lemma_count_bounds(self.indices@);
                    }
                    self.grow();
                    proof {
                        self.lemma_lacks_view(key.key());
                    }
                    (find_empty(&self.indices, #[verifier::truncate] (hash as u64)), true)
                } else {
                    (slot, fresh)
                };
                self.place(slot, fresh, hash, stored, value);
                proof {
                    assert(self.log().drop_last() == if grows {
                        compacted(mid.log())
                    } else {
                        mid.log()
                    });
                    lemma_live_items_take(self.log(), self.log().len() - 1);
                }
            },
        }
        Ok(())
    }

    /// Takes `key` and its value out of the dictionary, if it is there, where
    /// hashing the key has given `hashed`.
    fn take_hashed<K: DictKey<T>>(
        &mut self,
        key: &K,
        hashed: Result<HashValue, PyObjectRc<T>>,
    ) -> (r: Result<Option<Item<T>>, DictError<T>>)
        requires
            old(self).wf(),
            hashed matches Ok(h) ==> h == T::hash_of(key.key()),
            old(self).version() < VERSION_LIMIT,
        ensures
            hashed matches Err(e) ==> (r matches Err(DictError::Raised(x)) && x == e)
                && *final(self) == *old(self),
            final(self).wf(),
            old(self).evolves_to(final(self)),
            key.is_infallible() && hashed is Ok ==> r is Ok,
            match r {
                Ok(taken) => !has_key(final(self)@, key.key()) && (taken matches Some(item)
                    ==> item.0@.key() == key.key()),
                Err(DictError::Raised(e)) => key.raises(e) || (hashed matches Err(h) && h == e),
                Err(_) => false,
            },
            key.is_pure() ==> match r {
                Ok(Some(item)) => item == old(self)@[index_of(old(self)@, key.key())] && old(
                    self,
                ).removed(final(self), key.key()),
                Ok(None) => !has_key(old(self)@, key.key()) && *final(self) == *old(self),
                Err(_) => *final(self) == *old(self),
            },
    {
        let hash = match hashed {
            Ok(h) => h,
            Err(e) => {
                return Err(DictError::Raised(e));
            },
        };
        let found = match self.lookup(key, hash) {
            Ok(res) => res,
            Err(e) => {
                return Err(DictError::Raised(e));
            },
        };
        let ghost mid = *self;
        proof {
            self.lemma_lacks_view(key.key());
        }
        match found {
            LookupResult::Found { entry, slot } => {
                proof {
                    self.lemma_found(entry as int);
                    self.lemma_distinct();
                    lemma_live_items_delete(self.log(), entry as int);
                }
                let item = self.remove_entry(entry, slot);
                Ok(Some(item))
            },
            LookupResult::Vacant { slot, fresh } => Ok(None),
        }
    }

    /// Deletes `key`. Fails with `KeyNotFound`, which carries the key as an
    /// object, if the key is absent.
    pub fn delete<K: DictKey<T>>(&mut self, key: K) -> (r: Result<(), DictError<T>>)
        requires
            old(self).wf(),
            old(self).version() < VERSION_LIMIT,
        ensures
            final(self).wf(),
            old(self).evolves_to(final(self)),
            key.is_infallible() ==> !(r matches Err(DictError::Raised(_))),
            !has_key(final(self)@, key.key()) || r matches Err(DictError::Raised(_)),
            match r {
                Ok(()) => true,
                Err(DictError::KeyNotFound(object)) => object@.key() == key.key(),
                Err(DictError::Raised(e)) => key.raises(e),
                Err(_) => false,
            },
            key.is_pure() ==> match r {
                Ok(()) => old(self).removed(final(self), key.key()),
                Err(DictError::KeyNotFound(_)) => !has_key(old(self)@, key.key()) && *final(self)
                    == *old(self),
                Err(_) => *final(self) == *old(self),
            },
    {
        let hashed = key.key_hash();
        self.delete_hashed(key, hashed)
    }

    /// Deletes `key`, where hashing the key has given `hashed`. A hash that
    /// failed is handed on as it is, and the dictionary is not touched.
    pub fn delete_hashed<K: DictKey<T>>(
        &mut self,
        key: K,
        hashed: Result<HashValue, PyObjectRc<T>>,
    ) -> (r: Result<(), DictError<T>>)
        requires
            old(self).wf(),
            hashed matches Ok(h) ==> h == T::hash_of(key.key()),
            old(self).version() < VERSION_LIMIT,
        ensures
            hashed matches Err(e) ==> (r matches Err(DictError::Raised(x)) && x == e)
                && *final(self) == *old(self),
            final(self).wf(),
            old(self).evolves_to(final(self)),
            key.is_infallible() && hashed is Ok ==> !(r matches Err(DictError::Raised(_))),
            !has_key(final(self)@, key.key()) || r matches Err(DictError::Raised(_)),
            match r {
                Ok(()) => true,
                Err(DictError::KeyNotFound(object)) => object@.key() == key.key(),
                Err(DictError::Raised(e)) => key.raises(e) || (hashed matches Err(h) && h == e),
                Err(_) => false,
            },
            key.is_pure() ==> match r {
                Ok(()) => old(self).removed(final(self), key.key()),
                Err(DictError::KeyNotFound(_)) => !has_key(old(self)@, key.key()) && *final(self)
                    == *old(self),
                Err(_) => *final(self) == *old(self),
            },
    {
        match self.take_hashed(&key, hashed) {
            Ok(Some(_item)) => Ok(()),
            Ok(None) => Err(DictError::KeyNotFound(key.into_pyobject())),
            Err(e) => Err(e),
        }
    }

    /// Deletes `key` and hands its value back, or `None` if the key is
    /// absent.
    pub fn pop<K: DictKey<T>>(&mut self, key: &K) -> (r: Result<Option<PyObjectRc<T>>, DictError<T>>)
        requires
            old(self).wf(),
            old(self).version() < VERSION_LIMIT,
        ensures
            final(self).wf(),
            old(self).evolves_to(final(self)),
            key.is_infallible() ==> r is Ok,
            match r {
                Ok(_) => !has_key(final(self)@, key.key()),
                Err(DictError::Raised(e)) => key.raises(e),
                Err(_) => false,
            },
            key.is_pure() ==> match r {
                Ok(Some(value)) => items_get(old(self)@, key.key()) == Some(value) && old(
                    self,
                ).removed(final(self), key.key()),
                Ok(None) => !has_key(old(self)@, key.key()) && *final(self) == *old(self),
                Err(_) => *final(self) == *old(self),
            },
    {
        let hashed = key.key_hash();
        self.pop_hashed(key, hashed)
    }

    /// Deletes `key` and hands its value back, where hashing the key has
    /// given `hashed`. A hash that failed is handed on as it is, and the
    /// dictionary is not touched.
    pub fn pop_hashed<K: DictKey<T>>(
        &mut self,
        key: &K,
        hashed: Result<HashValue, PyObjectRc<T>>,
    ) -> (r: Result<Option<PyObjectRc<T>>, DictError<T>>)
        requires
            old(self).wf(),
            hashed matches Ok(h) ==> h == T::hash_of(key.key()),
            old(self).version() < VERSION_LIMIT,
        ensures
            hashed matches Err(e) ==> (r matches Err(DictError::Raised(x)) && x == e)
                && *final(self) == *old(self),
            final(self).wf(),
            old(self).evolves_to(final(self)),
            key.is_infallible() && hashed is Ok ==> r is Ok,
            match r {
                Ok(_) => !has_key(final(self)@, key.key()),
                Err(DictError::Raised(e)) => key.raises(e) || (hashed matches Err(h) && h == e),
                Err(_) => false,
            },
            key.is_pure() ==> match r {
                Ok(Some(value)) => items_get(old(self)@, key.key()) == Some(value) && old(
                    self,
                ).removed(final(self), key.key()),
                Ok(None) => !has_key(old(self)@, key.key()) && *final(self) == *old(self),
                Err(_) => *final(self) == *old(self),
            },
    {
        match self.take_hashed(key, hashed) {
            Ok(Some(item)) => Ok(Some(item.1)),
            Ok(None) => Ok(None),
            Err(e) => Err(e),
        }
    }

    /// Deletes the item that was inserted last and hands it back. Fails with
    /// `EmptyCollectionOnPop` if the dictionary is empty.
    pub fn pop_most_recent(&mut self) -> (r: Result<Option<Item<T>>, DictError<T>>)
        requires
            old(self).wf(),
            old(self)@.len() > 0 ==> old(self).version() < VERSION_LIMIT,
        ensures
            final(self).wf(),
            old(self).evolves_to(final(self)),
            match r {
                Ok(Some(item)) => old(self).popped(final(self), item),
                Err(DictError::EmptyCollectionOnPop) => old(self)@.len() == 0 && *final(self)
                    == *old(self),
                _ => false,
            },
    {
        proof {
            lemma_last_live(self.log());
        }
        let mut i = self.entries.len();
        while i > 0
            invariant
                *self == *old(self),
                self.wf(),
                self@.len() > 0 ==> self.version() < VERSION_LIMIT,
                i <= self.log().len(),
                forall|p: int| i <= p < self.log().len() ==> (#[trigger] self.log()[p]) is None,
            decreases i,
        {
            i -= 1;
            if self.entries[i].item.is_some() {
                proof {
                    let log = self.log();
                    lemma_last_live(log);
                    lemma_live_items_delete(log, i as int);
                }
                let slot = self.entries[i].slot;
                let item = self.remove_entry(i, slot);
                return Ok(Some(item));
            }
        }
        proof {
            let log = self.log();
            match last_live(log) {
                Some(j) => {},
                None => {},
            }
        }
        Err(DictError::EmptyCollectionOnPop)
    }

    /// Deletes every item.
    pub fn clear(&mut self)
        requires
            old(self).wf(),
            old(self).version() < VERSION_LIMIT,
        ensures
            final(self).wf(),
            old(self).evolves_to(final(self)),
            final(self).log() == Seq::<Option<Item<T>>>::empty(),
            final(self).version() == old(self).version() + 1,
            final(self).capacity() == MIN_CAPACITY,
            final(self).used_slots() == 0,
    {
        self.indices = empty_table(MIN_CAPACITY);
        self.entries = Vec::new();
        self.used = 0;
        self.filled = 0;
        self.version = self.version + 1;
        proof {
            lemma2_to64();
            lemma_count_all_empty(self.indices@);
        }
    }

    /// Dictionaries with the same log and the same numbers have the same
    /// version.
    pub proof fn lemma_same_size(&self, other: &Self)
        requires
            self.wf(),
            other.wf(),
            self.size_spec() == other.size_spec(),
        ensures
            self.version() == other.version(),
    {
    }

    /// The index table of a well-formed dictionary has a power of two of
    /// slots, of which at most two thirds are in use; the slots in use are
    /// those of the live entries and the tombstones.
    pub proof fn lemma_load_factor(&self)
        requires
            self.wf(),
        ensures
            is_capacity(self.capacity() as int),
            self.capacity() >= MIN_CAPACITY,
            self.used_slots() * 3 <= self.capacity() * 2,
            self@.len() <= self.used_slots() <= self.version(),
    {
        lemma_capacity_min(self.indices@.len() as int);
        lemma_count_bounds(self.indices@);
    }

    /// The index table points to the live entries and to nothing else: a
    /// slot that points to a log position points to a live entry, and every
    /// live entry has its slot, which is the only one that points to it.
    pub proof fn lemma_index_and_log(&self)
        requires
            self.wf(),
        ensures
            forall|s: int|
                0 <= s < self.capacity() ==> (#[trigger] self.slot_at(s) matches IndexSlot::Occupied(
                    i,
                ) ==> i < self.log().len() && self.log()[i as int] is Some),
            forall|i: int|
                0 <= i < self.log().len() && (#[trigger] self.log()[i]) is Some ==> exists|s: int|
                    0 <= s < self.capacity() && #[trigger] self.slot_at(s) == IndexSlot::Occupied(
                        i as usize,
                    ),
            forall|s: int, t: int|
                0 <= s < self.capacity() && 0 <= t < self.capacity() && s != t ==> (
                #[trigger] self.slot_at(s) matches IndexSlot::Occupied(i) ==> #[trigger] self.slot_at(
                    t,
                ) != IndexSlot::Occupied(i)),
    {
        assert forall|i: int| 0 <= i < self.log().len() && (#[trigger] self.log()[i]) is Some implies exists|
            s: int,
        |
            0 <= s < self.capacity() && #[trigger] self.slot_at(s) == IndexSlot::Occupied(
                i as usize,
            ) by {
            assert(self.entry_ok(i));
            let s = self.entries@[i].slot as int;
            assert(self.slot_at(s) == IndexSlot::Occupied(i as usize));
        }
    }

    /// The index table and the log are small against what a `usize` can
    /// count.
    pub proof fn lemma_size_bounds(&self)
        requires
            self.wf(),
        ensures
            self.version() <= VERSION_LIMIT,
            self.capacity() <= 3 * VERSION_LIMIT,
            self.log().len() <= VERSION_LIMIT,
            self.used_slots() <= VERSION_LIMIT,
            self@.len() <= self.log().len(),
    {
        lemma_live_items_len(self.log());
    }

    /// The number of items.
    pub fn len(&self) -> (n: usize)
        requires
            self.wf(),
        ensures
            n == self@.len(),
    {
        self.used
    }

    /// Whether there is no item.
    pub fn is_empty(&self) -> (r: bool)
        requires
            self.wf(),
        ensures
            r == (self@.len() == 0),
    {
        self.used == 0
    }

    /// The storage that the dictionary holds, in units of one index slot or
    /// one log entry.
    pub fn sizeof(&self) -> (n: usize)
        requires
            self.wf(),
        ensures
            n == self.capacity() + self.log().len(),
    {
        self.indices.len() + self.entries.len()
    }

    /// What the dictionary is made of, in numbers.
    pub fn size(&self) -> (r: DictSize)
        requires
            self.wf(),
        ensures
            r == self.size_spec(),
    {
        DictSize {
            indices_size: self.indices.len(),
            entries_size: self.entries.len(),
            used: self.used,
            filled: self.filled,
            version: self.version,
        }
    }

    /// Whether the dictionary differs from what it was when `size` gave
    /// `snapshot`.
    pub fn has_structurally_changed(&self, snapshot: &DictSize) -> (r: bool)
        requires
            self.wf(),
        ensures
            r == (self.size_spec() != *snapshot),
    {
        let now = self.size();
        !(now.indices_size == snapshot.indices_size && now.entries_size == snapshot.entries_size
            && now.used == snapshot.used && now.filled == snapshot.filled && now.version
            == snapshot.version)
    }

    /// Whether the dictionary can take another change to its set of keys.
    pub fn has_room(&self) -> (r: bool)
        ensures
            r == (self.version() < VERSION_LIMIT),
    {
        self.version < VERSION_LIMIT
    }

    /// The number of further changes to its set of keys that the dictionary
    /// can take.
    pub fn room(&self) -> (n: usize)
        requires
            self.wf(),
        ensures
            n == VERSION_LIMIT - self.version(),
    {
        VERSION_LIMIT - self.version
    }

    /// The first live entry at or after log position `position`: its key, its
    /// value, and the position to go on from.
    pub fn next_live_entry(&self, position: usize) -> (r: Option<
        (PyObjectRc<T>, PyObjectRc<T>, usize),
    >)
        requires
            self.wf(),
        ensures
            match first_live_from(self.log(), position as int) {
                Some(i) => r matches Some(found) && self.log()[i] == Some((found.0, found.1))
                    && found.2 == i + 1,
                None => r is None,
            },
            r matches Some(found) ==> position < found.2 <= self.log().len() && rank(
                self.log(),
                found.2 as int,
            ) == rank(self.log(), position as int) + 1 && self@[rank(self.log(), position as int)]
                == (found.0, found.1),
            r is None ==> live_count_from(self.log(), position as int) == 0,
    {
        let mut i = position;
        while i < self.entries.len()
            invariant
                self.wf(),
                position <= i,
                first_live_from(self.log(), i as int) == first_live_from(
                    self.log(),
                    position as int,
                ),
                position <= self.log().len() ==> i <= self.log().len(),
                i <= self.log().len() ==> rank(self.log(), i as int) == rank(
                    self.log(),
                    position as int,
                ),
            decreases self.entries@.len() - i,
        {
            proof {
                lemma_live_items_take(self.log(), i as int);
            }
            match &self.entries[i].item {
                Some(it) => {
                    return Some((it.0.clone(), it.1.clone(), i + 1));
                },
                None => {},
            }
            i += 1;
        }
        proof {
            if position <= self.log().len() {
                assert(self.log().take(self.log().len() as int) == self.log());
            }
        }
        None
    }

    /// The number of live entries at or after log position `position`.
    pub fn length_from(&self, position: usize) -> (n: usize)
        requires
            self.wf(),
        ensures
            n == live_count_from(self.log(), position as int),
    {
        let mut i = position;
        let mut n: usize = 0;
        while i < self.entries.len()
            invariant
                self.wf(),
                position <= i,
                i <= self.log().len() ==> n == rank(self.log(), i as int) - rank(
                    self.log(),
                    position as int,
                ),
                position <= self.log().len() ==> i <= self.log().len(),
                i > self.log().len() ==> n == 0,
                n <= i - position,
            decreases self.entries@.len() - i,
        {
            proof {
                lemma_live_items_take(self.log(), i as int);
            }
            if self.entries[i].item.is_some() {
                n += 1;
            }
            i += 1;
        }
        proof {
            if position <= self.log().len() {
                assert(self.log().take(self.log().len() as int) == self.log());
            }
        }
        n
    }

    /// The item at place `n` of the items, counted from the first.
    pub fn nth_live(&self, n: usize) -> (r: Option<Item<T>>)
        requires
            self.wf(),
        ensures
            r == if n < self@.len() {
                Some(self@[n as int])
            } else {
                None
            },
    {
        if n >= self.used {
            return None;
        }
        let mut i: usize = 0;
        let mut seen: usize = 0;
        while i < self.entries.len()
            invariant
                self.wf(),
                n < self@.len(),
                i <= self.log().len(),
                seen == rank(self.log(), i as int),
                seen <= n,
            decreases self.entries@.len() - i,
        {
            proof {
                lemma_live_items_take(self.log(), i as int);
            }
            match &self.entries[i].item {
                Some(it) => {
                    if seen == n {
                        return Some((it.0.clone(), it.1.clone()));
                    }
                    seen += 1;
                },
                None => {},
            }
            i += 1;
        }
        proof {
            assert(self.log().take(self.log().len() as int) == self.log());
        }
        vstd::pervasive::unreached()
    }

    /// The keys, in the order of first insertion.
    pub fn keys(&self) -> (r: Vec<PyObjectRc<T>>)
        requires
            self.wf(),
        ensures
            r@ == self@.map_values(|item: Item<T>| item.0),
    {
        let mut r: Vec<PyObjectRc<T>> = Vec::new();
        let mut i: usize = 0;
        while i < self.entries.len()
            invariant
                self.wf(),
                i <= self.log().len(),
                r@ == live_items(self.log().take(i as int)).map_values(|item: Item<T>| item.0),
            decreases self.entries@.len() - i,
        {
            proof {
                assert(self.log().take(i + 1).drop_last() == self.log().take(i as int));
            }
            match &self.entries[i].item {
                Some(it) => {
                    r.push(it.0.clone());
                },
                None => {},
            }
            i += 1;
        }
        proof {
            assert(self.log().take(self.log().len() as int) == self.log());
        }
        r
    }
}

impl<T: PyObjectPayload> Clone for Dict<T> {
    /// A dictionary of its own with the same log and the same version, whose
    /// entries hold handles to the same objects.
    fn clone(&self) -> (r: Self)
        ensures
            self.wf() ==> r.wf() && self.same_keys(&r),
            r.log() == self.log(),
            r.version() == self.version(),
            r.capacity() == self.capacity(),
            r.used_slots() == self.used_slots(),
    {
        let mut indices: Vec<IndexSlot> = Vec::new();
        let mut i: usize = 0;
        while i < self.indices.len()
            invariant
                i <= self.indices@.len(),
                indices@ == self.indices@.take(i as int),
            decreases self.indices@.len() - i,
        {
            indices.push(self.indices[i]);
            i += 1;
        }
        let mut entries: Vec<DictEntry<T>> = Vec::new();
        let mut j: usize = 0;
        while j < self.entries.len()
            invariant
                j <= self.entries@.len(),
                entries@ == self.entries@.take(j as int),
            decreases self.entries@.len() - j,
        {
            let e = &self.entries[j];
            let item = match &e.item {
                Some(it) => Some((it.0.clone(), it.1.clone())),
                None => None,
            };
            entries.push(DictEntry { hash: e.hash, slot: e.slot, item });
            j += 1;
        }
        proof {
            assert(self.indices@.take(i as int) == self.indices@);
            assert(self.entries@.take(j as int) == self.entries@);
        }
        let r = Dict {
            indices,
            entries,
            used: self.used,
            filled: self.filled,
            version: self.version,
        };
        proof {
            if self.wf() {
                assert forall|p: int| 0 <= p < r.entries@.len() implies #[trigger] r.entry_ok(p) by {
                    assert(self.entry_ok(p));
                }
            }
        }
        r
    }
}

impl<T: PyObjectPayload> Default for Dict<T> {
    /// A new, empty dictionary.
    fn default() -> (d: Self)
        ensures
            d.wf(),
            d.log() == Seq::<Option<Item<T>>>::empty(),
            d.version() == 0,
            d.capacity() == MIN_CAPACITY,
            d.used_slots() == 0,
    {
        Dict::new()
    }
}

} // verus!
