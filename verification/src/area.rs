//! The state arena: a bump allocator for aggregate state blocks.
//!
//! An address is an offset into the arena. The arena only grows and never
//! moves what it has handed out, so an address stays valid for as long as
//! the arena lives. Nothing is freed one by one; the arena is reclaimed as
//! a whole.

use crate::layout::{align_up, is_aligned, lemma_align_up, spec_align_up};
use vstd::prelude::*;

verus! {

/// The largest size an arena can have.
pub const AREA_MAX_BYTES: usize = usize::MAX / 2;

/// Address of a state, or of a state block, inside an arena.
#[derive(Clone, Copy, Debug, PartialEq, Eq, Structural)]
pub struct StateAddr {
    addr: usize,
}

impl View for StateAddr {
    type V = nat;

    closed spec fn view(&self) -> nat {
        self.addr as nat
    }
}

impl StateAddr {
    pub fn new(addr: usize) -> (place: StateAddr)
        ensures
            place@ == addr,
    {
        StateAddr { addr }
    }

    /// The address as a machine word.
    pub fn addr(&self) -> (addr: usize)
        ensures
            addr == self@,
    {
        self.addr
    }

    /// The address `offset` bytes further on.
    pub fn next(&self, offset: usize) -> (place: StateAddr)
        requires
            self@ + offset <= usize::MAX,
        ensures
            place@ == self@ + offset,
    {
        StateAddr { addr: self.addr + offset }
    }
}

/// The memory `mem` after `bytes` were written at address `place`.
pub open spec fn spec_store(mem: Seq<u8>, place: nat, bytes: Seq<u8>) -> Seq<u8> {
    mem.subrange(0, place as int) + bytes + mem.subrange(
        (place + bytes.len()) as int,
        mem.len() as int,
    )
}

/// The `len` bytes of `mem` that start at address `place`.
pub open spec fn spec_load(mem: Seq<u8>, place: nat, len: nat) -> Seq<u8> {
    mem.subrange(place as int, (place + len) as int)
}

/// A write is read back as written, keeps the size of the memory, and
/// leaves every range that it does not touch as it was.
pub proof fn lemma_store(mem: Seq<u8>, place: nat, bytes: Seq<u8>)
    requires
        place + bytes.len() <= mem.len(),
    ensures
        spec_store(mem, place, bytes).len() == mem.len(),
        spec_load(spec_store(mem, place, bytes), place, bytes.len()) == bytes,
        forall|q: nat, n: nat|
            (q + n <= place || place + bytes.len() <= q) && q + n <= mem.len() ==> #[trigger] spec_load(
                spec_store(mem, place, bytes),
                q,
                n,
            ) == spec_load(mem, q, n),
{
    let after = spec_store(mem, place, bytes);
    assert(spec_load(after, place, bytes.len()) =~= bytes);
    assert forall|q: nat, n: nat|
        (q + n <= place || place + bytes.len() <= q) && q + n <= mem.len() implies #[trigger] spec_load(
        after,
        q,
        n,
    ) == spec_load(mem, q, n) by {
        assert(spec_load(after, q, n) =~= spec_load(mem, q, n));
    }
}

/// A growable region of bytes that hands out aligned blocks.
#[derive(Debug)]
pub struct Area {
    bytes: Vec<u8>,
    limit: usize,
}

impl View for Area {
    type V = Seq<u8>;

    closed spec fn view(&self) -> Seq<u8> {
        self.bytes@
    }
}

impl Area {
    /// The size that the arena may not exceed.
    pub closed spec fn spec_limit(&self) -> nat {
        self.limit as nat
    }

    /// An empty arena that may grow as far as memory can be addressed.
    pub fn create() -> (area: Area)
        ensures
            area@ == Seq::<u8>::empty(),
            area.spec_limit() == AREA_MAX_BYTES,
    {
        Area { bytes: Vec::new(), limit: AREA_MAX_BYTES }
    }

    /// An empty arena that holds at most `limit` bytes.
    pub fn with_limit(limit: usize) -> (area: Area)
        ensures
            area@ == Seq::<u8>::empty(),
            area.spec_limit() == if limit <= AREA_MAX_BYTES {
                limit as nat
            } else {
                AREA_MAX_BYTES as nat
            },
    {
        let limit = if limit <= AREA_MAX_BYTES {
            limit
        } else {
            AREA_MAX_BYTES
        };
        Area { bytes: Vec::new(), limit }
    }

    /// Number of bytes handed out so far, padding included.
    pub fn len(&self) -> (n: usize)
        ensures
            n == self@.len(),
    {
        self.bytes.len()
    }

    pub fn limit(&self) -> (n: usize)
        ensures
            n == self.spec_limit(),
    {
        self.limit
    }

    /// Hands out a fresh block of `size` zero bytes at the first aligned
    /// address behind everything handed out before. Fails, and changes
    /// nothing, exactly when the block would end beyond the limit.
    pub fn allocate(&mut self, size: usize, align: usize) -> (r: Option<StateAddr>)
        requires
            align > 0,
        ensures
            final(self).spec_limit() == old(self).spec_limit(),
            match r {
                Some(place) => {
                    &&& place@ == spec_align_up(old(self)@.len(), align as nat)
                    &&& is_aligned(place@, align as nat)
                    &&& place@ + size <= old(self).spec_limit()
                    &&& final(self)@.len() == place@ + size
                    &&& final(self)@.subrange(0, old(self)@.len() as int) == old(self)@
                    &&& forall|i: int| old(self)@.len() <= i < place@ + size ==> final(self)@[i] == 0
                },
                None => {
                    &&& spec_align_up(old(self)@.len(), align as nat) + size > old(
                        self,
                    ).spec_limit()
                    &&& final(self)@ == old(self)@
                },
            },
    {
        proof {
            lemma_align_up(self.bytes@.len(), align as nat);
        }
        let start = match align_up(self.bytes.len(), align) {
            Some(start) => start,
            None => {
                return None;
            },
        };
        if start > self.limit || size > self.limit - start {
            return None;
        }
        let end: usize = start + size;
        let ghost before = self.bytes@;
        while self.bytes.len() < end
            invariant
                before.len() <= self.bytes@.len() <= end,
                self.limit == old(self).limit,
                self.bytes@.subrange(0, before.len() as int) == before,
                forall|i: int| before.len() <= i < self.bytes@.len() ==> self.bytes@[i] == 0,
            decreases end - self.bytes.len(),
        {
            self.bytes.push(0u8);
            assert(self.bytes@.subrange(0, before.len() as int) =~= before);
        }
        Some(StateAddr { addr: start })
    }

    /// The `len` bytes at `place`.
    pub fn load(&self, place: StateAddr, len: usize) -> (bytes: Vec<u8>)
        requires
            place@ + len <= self@.len(),
        ensures
            bytes@ == spec_load(self@, place@, len as nat),
    {
        let mut bytes: Vec<u8> = Vec::new();
        let mut i: usize = 0;
        let total = self.bytes.len();
        while i < len
            invariant
                i <= len,
                place.addr + len <= self.bytes@.len() == total,
                bytes@ == self.bytes@.subrange(place.addr as int, place.addr + i),
            decreases len - i,
        {
            bytes.push(self.bytes[place.addr + i]);
            i += 1;
            assert(bytes@ =~= self.bytes@.subrange(place.addr as int, place.addr + i));
        }
        bytes
    }

    /// Writes `bytes` at `place`, over what was there.
    pub fn store(&mut self, place: StateAddr, bytes: &Vec<u8>)
        requires
            place@ + bytes@.len() <= old(self)@.len(),
        ensures
            final(self)@ == spec_store(old(self)@, place@, bytes@),
            final(self).spec_limit() == old(self).spec_limit(),
    {
        let ghost before = self.bytes@;
        let mut i: usize = 0;
        let total = self.bytes.len();
        while i < bytes.len()
            invariant
                i <= bytes.len(),
                place.addr + bytes@.len() <= before.len() == total,
                self.limit == old(self).limit,
                self.bytes@.len() == before.len(),
                self.bytes@ == spec_store(before, place.addr as nat, bytes@.subrange(0, i as int)),
            decreases bytes.len() - i,
        {
            self.bytes.set(place.addr + i, bytes[i]);
            i += 1;
            assert(self.bytes@ =~= spec_store(
                before,
                place.addr as nat,
                bytes@.subrange(0, i as int),
            ));
        }
        assert(bytes@.subrange(0, i as int) =~= bytes@);
    }
}

} // verus!
