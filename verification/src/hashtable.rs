//! The group-key hash table.
//!
//! Keys are byte strings; each key maps to one machine word. Entries are
//! kept in the order in which their keys were first inserted, and that is
//! the order in which the table is walked. Keys are found through an
//! open-addressed index with linear probing: a key's probe starts at its
//! home slot and runs forward to the first empty slot. The index has
//! enough slots behind the last home for every probe to end inside it.

use crate::error::ErrorCode;
use vstd::prelude::*;

verus! {

/// The largest number of keys a table can hold. The index has three slots
/// per key that it has room for, and a vector cannot hold more bytes than
/// half the address space.
pub const HASHTABLE_MAX_ENTRIES: usize = usize::MAX / 64;

/// Number of keys that a new table holds before it grows.
pub const HASHTABLE_INITIAL_CAPACITY: usize = 8;

/// The hash of the empty key.
pub const HASH_BASIS: u64 = 0xcbf2_9ce4_8422_2325;

/// The factor by which the hash is multiplied after each byte.
pub const HASH_PRIME: u64 = 0x0000_0100_0000_01b3;

/// The hash of the first `n` bytes of `key`: each byte is mixed in by an
/// exclusive or followed by a multiplication modulo 2^64.
pub open spec fn spec_hash_prefix(key: Seq<u8>, n: int) -> u64
    decreases n,
{
    if n <= 0 {
        HASH_BASIS
    } else {
        vstd::wrapping::u64_specs::wrapping_mul(
            spec_hash_prefix(key, n - 1) ^ (key[n - 1] as u64),
            HASH_PRIME,
        )
    }
}

/// The hash of `key`.
pub open spec fn spec_hash(key: Seq<u8>) -> u64 {
    spec_hash_prefix(key, key.len() as int)
}

/// The slot at which the probe for `key` starts, among `homes` home slots.
pub open spec fn spec_home(key: Seq<u8>, homes: nat) -> nat {
    (spec_hash(key) as nat) % homes
}

/// Computes the hash of `key`.
pub fn hash_bytes(key: &Vec<u8>) -> (h: u64)
    ensures
        h == spec_hash(key@),
{
    let mut h: u64 = HASH_BASIS;
    let mut i: usize = 0;
    while i < key.len()
        invariant
            i <= key.len(),
            h == spec_hash_prefix(key@, i as int),
        decreases key.len() - i,
    {
        h = (h ^ (key[i] as u64)).wrapping_mul(HASH_PRIME);
        i += 1;
    }
    h
}

/// Whether two byte strings are the same.
pub fn bytes_eq(a: &Vec<u8>, b: &Vec<u8>) -> (same: bool)
    ensures
        same == (a@ == b@),
{
    if a.len() != b.len() {
        return false;
    }
    let mut i: usize = 0;
    while i < a.len()
        invariant
            i <= a.len(),
            a.len() == b.len(),
            a@.subrange(0, i as int) == b@.subrange(0, i as int),
        decreases a.len() - i,
    {
        if a[i] != b[i] {
            return false;
        }
        i += 1;
        assert(a@.subrange(0, i as int) =~= a@.subrange(0, i - 1).push(a@[i - 1]));
        assert(b@.subrange(0, i as int) =~= b@.subrange(0, i - 1).push(b@[i - 1]));
    }
    assert(a@.subrange(0, a@.len() as int) =~= a@);
    assert(b@.subrange(0, b@.len() as int) =~= b@);
    true
}

/// The byte strings held by `keys`.
pub open spec fn key_views(keys: Seq<Vec<u8>>) -> Seq<Seq<u8>> {
    Seq::new(keys.len(), |i: int| keys[i]@)
}

/// Number of slots in `slots[lo..hi]` that hold an entry.
spec fn occupied(slots: Seq<usize>, lo: int, hi: int) -> nat
    decreases hi - lo,
{
    if hi <= lo {
        0
    } else {
        occupied(slots, lo, hi - 1) + if slots[hi - 1] != 0 {
            1nat
        } else {
            0nat
        }
    }
}

proof fn lemma_occupied_split(slots: Seq<usize>, lo: int, mid: int, hi: int)
    requires
        lo <= mid <= hi,
    ensures
        occupied(slots, lo, hi) == occupied(slots, lo, mid) + occupied(slots, mid, hi),
    decreases hi - mid,
{
    if mid < hi {
        lemma_occupied_split(slots, lo, mid, hi - 1);
    }
}

proof fn lemma_occupied_run(slots: Seq<usize>, lo: int, hi: int)
    requires
        0 <= lo <= hi <= slots.len(),
        forall|s: int| lo <= s < hi ==> slots[s] != 0,
    ensures
        occupied(slots, lo, hi) == hi - lo,
    decreases hi - lo,
{
    if lo < hi {
        lemma_occupied_run(slots, lo, hi - 1);
    }
}

proof fn lemma_occupied_none(slots: Seq<usize>, lo: int, hi: int)
    requires
        0 <= lo <= hi <= slots.len(),
        forall|s: int| lo <= s < hi ==> slots[s] == 0,
    ensures
        occupied(slots, lo, hi) == 0,
    decreases hi - lo,
{
    if lo < hi {
        lemma_occupied_none(slots, lo, hi - 1);
    }
}

proof fn lemma_occupied_fill(slots: Seq<usize>, at: int, entry: usize, lo: int, hi: int)
    requires
        0 <= lo <= hi <= slots.len(),
        0 <= at < slots.len(),
        slots[at] == 0,
        entry != 0,
    ensures
        occupied(slots.update(at, entry), lo, hi) == occupied(slots, lo, hi) + if lo <= at < hi {
            1nat
        } else {
            0nat
        },
    decreases hi - lo,
{
    if lo < hi {
        lemma_occupied_fill(slots, at, entry, lo, hi - 1);
    }
}

/// A run of occupied slots is no longer than the number of occupied slots.
proof fn lemma_run_bounded(slots: Seq<usize>, lo: int, hi: int)
    requires
        0 <= lo <= hi <= slots.len(),
        forall|s: int| lo <= s < hi ==> slots[s] != 0,
    ensures
        hi - lo <= occupied(slots, 0, slots.len() as int),
{
    lemma_occupied_run(slots, lo, hi);
    lemma_occupied_split(slots, 0, lo, hi);
    lemma_occupied_split(slots, 0, hi, slots.len() as int);
}

/// Whether `slots` indexes the first `upto` keys of `keys`: entry `e` sits
/// in slot `places[e]`, at or behind its home, with no empty slot between
/// its home and itself, and no slot holds anything else.
spec fn indexed(
    keys: Seq<Seq<u8>>,
    slots: Seq<usize>,
    places: Seq<int>,
    homes: nat,
    upto: int,
) -> bool {
    &&& forall|e: int|
        0 <= e < upto ==> {
            &&& 0 <= #[trigger] places[e] < slots.len()
            &&& slots[places[e]] == e + 1
            &&& spec_home(keys[e], homes) <= places[e]
        }
    &&& forall|e: int, s: int|
        #![trigger places[e], slots[s]]
        0 <= e < upto && spec_home(keys[e], homes) <= s < places[e] ==> slots[s] != 0
    &&& forall|s: int|
        0 <= s < slots.len() && #[trigger] slots[s] != 0 ==> 1 <= slots[s] <= upto && places[slots[s]
            - 1] == s
    &&& occupied(slots, 0, slots.len() as int) == upto
}

/// Filling the empty slot at the end of a key's probe indexes that key.
proof fn lemma_index_entry(
    keys: Seq<Seq<u8>>,
    slots: Seq<usize>,
    places: Seq<int>,
    homes: nat,
    upto: int,
    at: int,
)
    requires
        indexed(keys, slots, places, homes, upto),
        0 <= upto < keys.len(),
        places.len() == upto,
        upto + 1 <= usize::MAX,
        spec_home(keys[upto], homes) <= at < slots.len(),
        slots[at] == 0,
        forall|s: int| spec_home(keys[upto], homes) <= s < at ==> slots[s] != 0,
    ensures
        indexed(keys, slots.update(at, (upto + 1) as usize), places.push(at), homes, upto + 1),
{
    let slots2 = slots.update(at, (upto + 1) as usize);
    let places2 = places.push(at);
    lemma_occupied_fill(slots, at, (upto + 1) as usize, 0, slots.len() as int);
    assert forall|e: int| 0 <= e < upto + 1 implies {
        &&& 0 <= #[trigger] places2[e] < slots2.len()
        &&& slots2[places2[e]] == e + 1
        &&& spec_home(keys[e], homes) <= places2[e]
    } by {
        if e < upto {
            assert(places[e] != at);
        }
    }
    assert forall|e: int, s: int|
        #![trigger places2[e], slots2[s]]
        0 <= e < upto + 1 && spec_home(keys[e], homes) <= s < places2[e] implies slots2[s]
        != 0 by {
        if e < upto {
            assert(places[e] == places2[e]);
            assert(slots[s] != 0);
        }
    }
    assert forall|s: int| 0 <= s < slots2.len() && #[trigger] slots2[s] != 0 implies 1 <= slots2[s]
        <= upto + 1 && places2[slots2[s] - 1] == s by {
        if s != at {
            assert(slots[s] != 0);
        }
    }
}

/// What `insert_and_entry` found: the position of the key's entry, and
/// whether the call made the entry.
#[derive(Clone, Copy, Debug, PartialEq, Eq, Structural)]
pub struct TableEntry {
    pub index: usize,
    pub inserted: bool,
}

/// An insert-only hash table from byte-string keys to machine words.
pub struct HashTable {
    keys: Vec<Vec<u8>>,
    values: Vec<usize>,
    /// Zero for an empty slot, else the entry's position plus one.
    slots: Vec<usize>,
    /// Number of home slots; the slots behind them only take overflow.
    homes: usize,
    /// Number of keys that the index has room for.
    capacity: usize,
    /// The slot of each entry.
    places: Ghost<Seq<int>>,
}

/// The first empty slot at or behind `home`.
fn first_vacant(slots: &Vec<usize>, home: usize, used: Ghost<nat>) -> (at: usize)
    requires
        occupied(slots@, 0, slots@.len() as int) == used@,
        home + used@ < slots@.len(),
    ensures
        home <= at < slots@.len(),
        slots@[at as int] == 0,
        forall|s: int| home <= s < at ==> slots@[s] != 0,
{
    let mut at: usize = home;
    let len = slots.len();
    while slots[at] != 0
        invariant
            home <= at < slots@.len() == len,
            occupied(slots@, 0, slots@.len() as int) == used@,
            home + used@ < slots@.len(),
            forall|s: int| home <= s < at ==> slots@[s] != 0,
        decreases slots@.len() - at,
    {
        proof {
            lemma_run_bounded(slots@, home as int, at + 1);
        }
        at += 1;
    }
    at
}

/// `len` empty slots.
fn empty_slots(len: usize) -> (slots: Vec<usize>)
    ensures
        slots@.len() == len,
        forall|s: int| 0 <= s < len ==> slots@[s] == 0,
{
    let mut slots: Vec<usize> = Vec::new();
    while slots.len() < len
        invariant
            slots@.len() <= len,
            forall|s: int| 0 <= s < slots@.len() ==> slots@[s] == 0,
        decreases len - slots@.len(),
    {
        slots.push(0);
    }
    slots
}

impl HashTable {
    /// The keys, in the order of their insertion.
    pub closed spec fn keys(&self) -> Seq<Seq<u8>> {
        key_views(self.keys@)
    }

    /// The value of each key, in the same order.
    pub closed spec fn values(&self) -> Seq<usize> {
        self.values@
    }

    /// The table's invariant.
    pub closed spec fn wf(&self) -> bool {
        &&& self.keys@.len() == self.values@.len()
        &&& self.keys@.len() == self.places@.len()
        &&& self.keys@.len() <= self.capacity <= HASHTABLE_MAX_ENTRIES
        &&& 1 <= self.capacity
        &&& 1 <= self.homes
        &&& self.slots@.len() == self.homes + self.capacity
        &&& indexed(self.keys(), self.slots@, self.places@, self.homes as nat, self.keys@.len() as int)
        &&& self.keys().no_duplicates()
    }

    /// A table holds each key once, one value per key, and no more keys
    /// than `HASHTABLE_MAX_ENTRIES`.
    pub proof fn lemma_wf(&self)
        requires
            self.wf(),
        ensures
            self.keys().len() == self.values().len(),
            self.keys().len() <= HASHTABLE_MAX_ENTRIES,
            self.keys().no_duplicates(),
    {
    }

    /// An empty table.
    pub fn new() -> (table: HashTable)
        ensures
            table.wf(),
            table.keys() == Seq::<Seq<u8>>::empty(),
            table.values() == Seq::<usize>::empty(),
    {
        let capacity: usize = HASHTABLE_INITIAL_CAPACITY;
        let homes: usize = 2 * HASHTABLE_INITIAL_CAPACITY;
        let slots = empty_slots(homes + capacity);
        let table = HashTable {
            keys: Vec::new(),
            values: Vec::new(),
            slots,
            homes,
            capacity,
            places: Ghost(Seq::empty()),
        };
        proof {
            lemma_occupied_none(table.slots@, 0, table.slots@.len() as int);
            assert(table.keys() =~= Seq::<Seq<u8>>::empty());
        }
        table
    }

    /// Number of keys.
    pub fn len(&self) -> (n: usize)
        requires
            self.wf(),
        ensures
            n == self.keys().len(),
    {
        self.keys.len()
    }

    /// The key of the entry at `index`.
    pub fn key(&self, index: usize) -> (key: &Vec<u8>)
        requires
            self.wf(),
            index < self.keys().len(),
        ensures
            key@ == self.keys()[index as int],
    {
        &self.keys[index]
    }

    /// The value of the entry at `index`.
    pub fn value(&self, index: usize) -> (value: usize)
        requires
            self.wf(),
            index < self.keys().len(),
        ensures
            value == self.values()[index as int],
    {
        self.values[index]
    }

    /// Gives the entry at `index` the value `value`.
    pub fn set_value(&mut self, index: usize, value: usize)
        requires
            old(self).wf(),
            index < old(self).keys().len(),
        ensures
            final(self).wf(),
            final(self).keys() == old(self).keys(),
            final(self).values() == old(self).values().update(index as int, value),
    {
        self.values.set(index, value);
    }

    /// The position of the entry of `key`, or the empty slot that ends the
    /// key's probe.
    fn find(&self, key: &Vec<u8>) -> (r: Result<usize, usize>)
        requires
            self.wf(),
        ensures
            match r {
                Ok(index) => index < self.keys().len() && self.keys()[index as int] == key@,
                Err(at) => {
                    &&& !self.keys().contains(key@)
                    &&& spec_home(key@, self.homes as nat) <= at < self.slots@.len()
                    &&& self.slots@[at as int] == 0
                    &&& forall|s: int|
                        spec_home(key@, self.homes as nat) <= s < at ==> self.slots@[s] != 0
                },
            },
    {
        let home: usize = (hash_bytes(key) % (self.homes as u64)) as usize;
        let mut at: usize = home;
        let len = self.slots.len();
        loop
            invariant
                self.wf(),
                self.slots@.len() == len,
                home == spec_home(key@, self.homes as nat),
                home <= at < self.slots@.len(),
                forall|s: int|
                    home <= s < at ==> self.slots@[s] != 0 && self.keys()[self.slots@[s] - 1]
                        != key@,
            decreases self.slots@.len() - at,
        {
            let entry: usize = self.slots[at];
            if entry == 0 {
                proof {
                    if self.keys().contains(key@) {
                        let e = choose|e: int|
                            0 <= e < self.keys().len() && self.keys()[e] == key@;
                        let place = self.places@[e];
                        if place < at {
                            assert(self.slots@[place] != 0);
                        } else if place > at {
                            assert(self.slots@[at as int] != 0);
                        }
                        assert(false);
                    }
                }
                return Err(at);
            }
            if bytes_eq(&self.keys[entry - 1], key) {
                return Ok(entry - 1);
            }
            proof {
                lemma_run_bounded(self.slots@, home as int, at + 1);
            }
            at += 1;
        }
    }

    /// The position of the entry of `key`, if the table holds the key.
    pub fn get(&self, key: &Vec<u8>) -> (r: Option<usize>)
        requires
            self.wf(),
        ensures
            r is Some == self.keys().contains(key@),
            r matches Some(index) ==> index < self.keys().len() && self.keys()[index as int]
                == key@,
    {
        match self.find(key) {
            Ok(index) => Some(index),
            Err(_) => None,
        }
    }

    /// Doubles the room of the index and places every entry anew.
    fn grow(&mut self)
        requires
            old(self).wf(),
            old(self).capacity < HASHTABLE_MAX_ENTRIES,
        ensures
            final(self).wf(),
            final(self).keys() == old(self).keys(),
            final(self).values() == old(self).values(),
            final(self).capacity > old(self).capacity,
    {
        let capacity: usize = if self.capacity > HASHTABLE_MAX_ENTRIES / 2 {
            HASHTABLE_MAX_ENTRIES
        } else {
            2 * self.capacity
        };
        let homes: usize = 2 * capacity;
        let mut slots = empty_slots(homes + capacity);
        let mut places: Ghost<Seq<int>> = Ghost(Seq::empty());
        proof {
            lemma_occupied_none(slots@, 0, slots@.len() as int);
        }
        let mut e: usize = 0;
        while e < self.keys.len()
            invariant
                e <= self.keys@.len() <= old(self).capacity < capacity,
                1 <= homes,
                slots@.len() == homes + capacity,
                places@.len() == e,
                indexed(key_views(self.keys@), slots@, places@, homes as nat, e as int),
            decreases self.keys@.len() - e,
        {
            let home: usize = (hash_bytes(&self.keys[e]) % (homes as u64)) as usize;
            let at = first_vacant(&slots, home, Ghost(e as nat));
            proof {
                lemma_index_entry(
                    key_views(self.keys@),
                    slots@,
                    places@,
                    homes as nat,
                    e as int,
                    at as int,
                );
                places@ = places@.push(at as int);
            }
            slots.set(at, e + 1);
            e += 1;
        }
        self.slots = slots;
        self.homes = homes;
        self.capacity = capacity;
        self.places = places;
    }

    /// Looks `key` up and makes an entry for it, with the value zero, if it
    /// has none. Fails, and changes nothing, exactly when the key is new
    /// and the table already holds `HASHTABLE_MAX_ENTRIES` keys.
    pub fn insert_and_entry(&mut self, key: &Vec<u8>) -> (r: Result<TableEntry, ErrorCode>)
        requires
            old(self).wf(),
        ensures
            final(self).wf(),
            r is Err <==> !old(self).keys().contains(key@) && old(self).keys().len()
                >= HASHTABLE_MAX_ENTRIES,
            match r {
                Ok(entry) => {
                    &&& entry.index < final(self).keys().len()
                    &&& final(self).keys()[entry.index as int] == key@
                    &&& entry.inserted == !old(self).keys().contains(key@)
                    &&& entry.inserted ==> final(self).keys() == old(self).keys().push(key@)
                        && final(self).values() == old(self).values().push(0)
                    &&& !entry.inserted ==> final(self).keys() == old(self).keys()
                        && final(self).values() == old(self).values()
                },
                Err(e) => {
                    &&& e == ErrorCode::AllocationFailure
                    &&& final(self).keys() == old(self).keys()
                    &&& final(self).values() == old(self).values()
                },
            },
    {
        let vacant = match self.find(key) {
            Ok(index) => {
                return Ok(TableEntry { index, inserted: false });
            },
            Err(at) => at,
        };
        let at = if self.keys.len() == self.capacity {
            if self.capacity == HASHTABLE_MAX_ENTRIES {
                return Err(ErrorCode::AllocationFailure);
            }
            self.grow();
            let home: usize = (hash_bytes(key) % (self.homes as u64)) as usize;
            first_vacant(&self.slots, home, Ghost(self.keys@.len()))
        } else {
            vacant
        };
        let index = self.keys.len();
        let ghost keys_before = self.keys();
        proof {
            assert(keys_before.push(key@) =~= key_views(self.keys@.push(*key)));
            lemma_index_entry(
                keys_before.push(key@),
                self.slots@,
                self.places@,
                self.homes as nat,
                index as int,
                at as int,
            );
            self.places@ = self.places@.push(at as int);
        }
        self.slots.set(at, index + 1);
        self.keys.push(crate::chunk::copy_bytes(key));
        self.values.push(0);
        proof {
            assert(self.keys() =~= keys_before.push(key@));
        }
        Ok(TableEntry { index, inserted: true })
    }
}

} // verus!
