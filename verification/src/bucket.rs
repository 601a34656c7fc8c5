//! The merge engine of one bucket.
//!
//! A bucket aggregator owns a hash table and a state arena. It folds the
//! partial chunks of its bucket into the table, one group per key, and then
//! emits one chunk with one row per group.
//!
//! The arena holds one state block per group, in the order of the groups,
//! behind the block of the scratch state, which is the first. All blocks
//! have the same size, so the block of group `i` starts at `(i + 1)` times
//! the block size.

use crate::area::{lemma_store, spec_load, spec_store, Area, StateAddr};
use crate::chunk::{chunk_views, entries_full, Chunk, ChunkEntry, Column, DataType, Value};
use crate::error::ErrorCode;
use crate::function::AggregateFunction;
use crate::hashtable::{key_views, HashTable, HASHTABLE_MAX_ENTRIES};
use crate::layout::{is_aligned, spec_align_up};
use crate::method::HashMethod;
use crate::model::{
    lemma_position, lemma_position_push, no_groups, partial_state, position, Groups, MergeSetup,
};
use crate::params::{
    function_layouts, lemma_manual_drop_count, lemma_no_manual_drops, spec_manual_drop_count,
    AggregatorParams,
};
use std::sync::Arc;
use vstd::arithmetic::div_mod::{lemma_fundamental_div_mod, lemma_mod_multiples_basic};
use vstd::prelude::*;

verus! {

/// A multiple of an aligned size is aligned.
pub proof fn lemma_blocks_aligned(blocks: nat, size: nat, align: nat)
    requires
        align > 0,
        is_aligned(size, align),
    ensures
        is_aligned(blocks * size, align),
        spec_align_up(blocks * size, align) == blocks * size,
{
    let q = (size as int) / (align as int);
    lemma_fundamental_div_mod(size as int, align as int);
    assert(blocks * size == (blocks * q) * align) by (nonlinear_arith)
        requires
            size == align * q,
    ;
    lemma_mod_multiples_basic(blocks * q, align as int);
}

/// Blocks follow one another without overlap.
pub proof fn lemma_block_order(i: int, j: int, size: nat)
    requires
        0 <= i < j,
    ensures
        i * size + size <= j * size,
        (i + 1) * size == i * size + size,
{
    assert(i * size + size <= j * size && (i + 1) * size == i * size + size) by (nonlinear_arith)
        requires
            0 <= i < j,
            size >= 0,
    ;
}

/// A prefix of the memory that is kept keeps what is loaded from it.
pub proof fn lemma_load_prefix(before: Seq<u8>, after: Seq<u8>, place: nat, len: nat)
    requires
        before.len() <= after.len(),
        after.subrange(0, before.len() as int) == before,
        place + len <= before.len(),
    ensures
        spec_load(after, place, len) == spec_load(before, place, len),
{
    assert forall|i: int| 0 <= i < len implies spec_load(after, place, len)[i] == spec_load(
        before,
        place,
        len,
    )[i] by {
        assert(after.subrange(0, before.len() as int)[place + i] == after[place + i]);
    }
    assert(spec_load(after, place, len) =~= spec_load(before, place, len));
}

/// The merge engine of one bucket. `HAS_AGG` tells whether aggregate states
/// are merged, or keys only are gathered.
pub struct BucketAggregator<const HAS_AGG: bool, F: AggregateFunction> {
    area: Area,
    method: HashMethod,
    params: Arc<AggregatorParams<F>>,
    hash_table: HashTable,
    /// The scratch state: every serialized state is read into it before it
    /// is merged.
    temp_place: Option<StateAddr>,
}

impl<const HAS_AGG: bool, F: AggregateFunction> BucketAggregator<HAS_AGG, F> {
    /// Mode, key encoding and configuration.
    pub closed spec fn setup(&self) -> MergeSetup<F> {
        MergeSetup { has_agg: HAS_AGG, method: self.method, params: *self.params }
    }

    /// The bytes of the state arena.
    pub closed spec fn memory(&self) -> Seq<u8> {
        self.area@
    }

    /// Number of state blocks in the arena, the scratch block included.
    pub open spec fn blocks(&self) -> nat {
        self.setup().blocks(self.groups().keys.len())
    }

    /// Where state block `block` starts. Block zero is the scratch block;
    /// block `i + 1` is that of group `i`.
    pub open spec fn block_base(&self, block: int) -> nat {
        (block * self.setup().params.block().size) as nat
    }

    /// The groups gathered so far.
    pub closed spec fn groups(&self) -> Groups {
        Groups {
            keys: self.hash_table.keys(),
            states: Seq::new(
                self.hash_table.keys().len(),
                |i: int|
                    if HAS_AGG && self.params.functions().len() > 0 {
                        self.params.states_at(self.area@, self.hash_table.values()[i] as nat)
                    } else {
                        Seq::empty()
                    },
            ),
        }
    }

    /// The aggregator's invariant.
    pub closed spec fn wf(&self) -> bool {
        &&& self.hash_table.wf()
        &&& self.params.wf()
        &&& self.area.spec_limit() == self.params.area_limit()
        &&& self.temp_place is Some <==> self.params.functions().len() > 0
        &&& self.temp_place matches Some(place) ==> place@ == 0
        &&& forall|i: int|
            0 <= i < self.hash_table.keys().len() ==> self.method.spec_valid_key(
                #[trigger] self.hash_table.keys()[i],
            )
        &&& self.area@.len() == self.blocks() * self.params.block().size
        &&& HAS_AGG && self.params.functions().len() > 0 ==> forall|i: int|
            0 <= i < self.hash_table.keys().len() ==> (#[trigger] self.hash_table.values()[i]) == (i
                + 1) * self.params.block().size
    }

    /// What holds of every aggregator: its keys are all different and are
    /// keys of its encoding, each group has one state per function where
    /// states are kept at all, and the states of group `i` are those of
    /// block `i + 1` of the arena.
    pub proof fn lemma_wf(&self)
        requires
            self.wf(),
        ensures
            self.setup().params.wf(),
            self.groups().keys.no_duplicates(),
            self.groups().keys.len() == self.groups().states.len(),
            self.groups().keys.len() <= HASHTABLE_MAX_ENTRIES,
            self.memory().len() == self.blocks() * self.setup().params.block().size,
            forall|i: int|
                0 <= i < self.groups().keys.len() ==> self.setup().method.spec_valid_key(
                    #[trigger] self.groups().keys[i],
                ),
            forall|i: int|
                0 <= i < self.groups().keys.len() ==> (#[trigger] self.groups().states[i])
                    == if self.setup().with_states() {
                    self.setup().params.states_at(self.memory(), self.block_base(i + 1))
                } else {
                    Seq::empty()
                },
    {
        self.hash_table.lemma_wf();
    }

    /// A new aggregator without groups. Where there are aggregate
    /// functions, the scratch state is allocated; the call fails exactly
    /// when the arena has no room for it.
    pub fn create(method: HashMethod, params: Arc<AggregatorParams<F>>) -> (r: Result<
        Self,
        ErrorCode,
    >)
        ensures
            r is Err <==> params.functions().len() > 0 && params.block().size
                > params.area_limit(),
            match r {
                Ok(aggregator) => {
                    &&& aggregator.wf()
                    &&& aggregator.setup() == (MergeSetup {
                        has_agg: HAS_AGG,
                        method,
                        params: *params,
                    })
                    &&& aggregator.groups() == no_groups()
                },
                Err(e) => e == ErrorCode::AllocationFailure,
            },
    {
        let block = params.state_block();
        let mut area = Area::with_limit(params.max_area_bytes());
        let hash_table = HashTable::new();
        proof {
            lemma_blocks_aligned(0, block.size as nat, block.align as nat);
        }
        let temp_place = match params.alloc_layout(&mut area) {
            Ok(place) => place,
            Err(e) => {
                return Err(e);
            },
        };
        let aggregator = BucketAggregator { area, method, params, hash_table, temp_place };
        proof {
            assert(aggregator.groups().keys =~= no_groups().keys);
            assert(aggregator.groups().states =~= no_groups().states);
            assert(aggregator.hash_table.keys().len() == 0);
            assert(aggregator.groups().keys.len() == 0);
            let size = aggregator.params.block().size as nat;
            assert(0 * size == 0 && 1 * size == size) by (nonlinear_arith);
            assert(aggregator.area@.len() == aggregator.blocks() * size);
            assert(aggregator.wf());
        }
        Ok(aggregator)
    }

    /// Number of groups.
    pub fn len(&self) -> (n: usize)
        requires
            self.wf(),
        ensures
            n == self.groups().keys.len(),
    {
        self.hash_table.len()
    }
}

/// Whether `places` holds, for each of the first `upto` rows, the base of
/// the state block of the group of the row's key. Without states there are
/// no places.
pub open spec fn spec_places<F: AggregateFunction>(
    setup: MergeSetup<F>,
    group_keys: Seq<Seq<u8>>,
    keys: Seq<Seq<u8>>,
    places: Seq<StateAddr>,
    upto: int,
) -> bool {
    if setup.with_states() {
        &&& places.len() == upto
        &&& forall|r: int|
            0 <= r < upto ==> (#[trigger] places[r])@ == (position(group_keys, keys[r]) + 1)
                * setup.params.block().size
    } else {
        places.len() == 0
    }
}

impl<const HAS_AGG: bool, F: AggregateFunction> BucketAggregator<HAS_AGG, F> {
    /// The groups keep their states when the arena grows behind them.
    proof fn lemma_states_kept(&self, after: &Self, i: int)
        requires
            self.wf(),
            HAS_AGG && self.params.functions().len() > 0,
            0 <= i < self.hash_table.keys().len(),
            after.params == self.params,
            self.area@.len() <= after.area@.len(),
            after.area@.subrange(0, self.area@.len() as int) == self.area@,
        ensures
            self.params.states_at(after.area@, self.hash_table.values()[i] as nat)
                == self.params.states_at(self.area@, self.hash_table.values()[i] as nat),
    {
        let params = *self.params;
        let size = params.block().size as nat;
        let base = self.hash_table.values()[i] as nat;
        let layouts = function_layouts(params.functions());
        lemma_block_order(i + 1, (self.hash_table.keys().len() + 1) as int, size);
        assert forall|idx: int| 0 <= idx < params.functions().len() implies params.state_at(
            after.area@,
            base,
            idx,
        ) == params.state_at(self.area@, base, idx) by {
            assert(layouts[idx].align > 0);
            assert(params.offsets()[idx] + layouts[idx].size <= size);
            lemma_load_prefix(
                self.area@,
                after.area@,
                base + (params.offsets()[idx] as nat),
                layouts[idx].size as nat,
            );
        }
        assert(params.states_at(after.area@, base) =~= params.states_at(self.area@, base));
    }

    /// What a new group makes of the aggregator.
    proof fn lemma_group_added(&self, after: &Self, key: Seq<u8>)
        requires
            self.wf(),
            HAS_AGG && self.params.functions().len() > 0,
            after.method == self.method,
            after.params == self.params,
            after.temp_place == self.temp_place,
            after.hash_table.wf(),
            after.hash_table.keys() == self.hash_table.keys().push(key),
            after.hash_table.values() == self.hash_table.values().push(0).update(
                self.hash_table.keys().len() as int,
                self.area@.len() as usize,
            ),
            self.method.spec_valid_key(key),
            self.area@.len() <= usize::MAX,
            after.area@.len() == self.area@.len() + self.params.block().size,
            after.area@.subrange(0, self.area@.len() as int) == self.area@,
            self.params.states_at(after.area@, self.area@.len()) == self.params.init_states(),
            after.area.spec_limit() == self.area.spec_limit(),
        ensures
            after.wf(),
            after.setup() == self.setup(),
            after.groups() == (Groups {
                keys: self.groups().keys.push(key),
                states: self.groups().states.push(self.setup().fresh_states()),
            }),
    {
        let n = self.hash_table.keys().len() as int;
        let size = self.params.block().size as nat;
        self.hash_table.lemma_wf();
        after.hash_table.lemma_wf();
        lemma_block_order(n + 1, n + 2, size);
        assert(after.area@.len() == after.blocks() * size);
        assert forall|i: int| 0 <= i < n + 1 implies (#[trigger] after.hash_table.values()[i]) == (i
            + 1) * size by {
            if i < n {
                assert(self.hash_table.values()[i] == (i + 1) * size);
            }
        }
        assert forall|i: int| 0 <= i < n + 1 implies after.method.spec_valid_key(
            #[trigger] after.hash_table.keys()[i],
        ) by {
            if i < n {
                assert(self.method.spec_valid_key(self.hash_table.keys()[i]));
            }
        }
        let wanted = self.groups().states.push(self.setup().fresh_states());
        assert forall|i: int| 0 <= i < n + 1 implies (#[trigger] after.groups().states[i])
            == wanted[i] by {
            if i < n {
                self.lemma_states_kept(after, i);
            }
        }
        assert(after.groups().states =~= wanted);
    }

    /// Finds, or makes, the group of each key. Returns the base of the
    /// state block of each row's group, in row order, where groups have
    /// states. A new group gets a fresh state block. Fails exactly when a
    /// key is new and the hash table or the arena has no room for its
    /// group; the groups made before stay.
    pub fn lookup_state(&mut self, keys: &Vec<Vec<u8>>) -> (r: Result<Vec<StateAddr>, ErrorCode>)
        requires
            old(self).wf(),
            forall|i: int|
                0 <= i < keys@.len() ==> old(self).setup().method.spec_valid_key(
                    #[trigger] keys@[i]@,
                ),
        ensures
            final(self).wf(),
            final(self).setup() == old(self).setup(),
            final(self).groups() == old(self).setup().lookup_reached(
                old(self).groups(),
                key_views(keys@),
                keys@.len() as int,
            ),
            match old(self).setup().lookup(
                old(self).groups(),
                key_views(keys@),
                keys@.len() as int,
            ) {
                Ok(groups) => {
                    &&& r matches Ok(places)
                    &&& spec_places(
                        old(self).setup(),
                        groups.keys,
                        key_views(keys@),
                        places@,
                        keys@.len() as int,
                    )
                },
                Err(e) => r == Err::<Vec<StateAddr>, ErrorCode>(e),
            },
    {
        let ghost setup = self.setup();
        let ghost start = self.groups();
        let ghost kv = key_views(keys@);
        let with_states = HAS_AGG && self.params.aggregate_functions().len() > 0;
        let block = self.params.state_block();
        let limit = self.area.limit();
        let mut places: Vec<StateAddr> = Vec::new();
        let mut row: usize = 0;
        while row < keys.len()
            invariant
                row <= keys@.len(),
                self.wf(),
                self.setup() == setup,
                setup == old(self).setup(),
                start == old(self).groups(),
                kv == key_views(keys@),
                with_states == setup.with_states(),
                block == setup.params.block(),
                limit == setup.params.area_limit(),
                forall|i: int|
                    0 <= i < keys@.len() ==> setup.method.spec_valid_key(#[trigger] keys@[i]@),
                setup.lookup(start, kv, row as int) == Ok::<Groups, ErrorCode>(self.groups()),
                forall|r: int| 0 <= r < row ==> self.groups().keys.contains(#[trigger] kv[r]),
                spec_places(setup, self.groups().keys, kv, places@, row as int),
            decreases keys@.len() - row,
        {
            let key = &keys[row];
            let ghost prev = *self;
            let ghost before = self.groups();
            let ghost count = before.keys.len();
            proof {
                assert(kv[row as int] == key@);
                self.hash_table.lemma_wf();
                lemma_block_order((count + 1) as int, (count + 2) as int, block.size as nat);
                lemma_blocks_aligned(count + 1, block.size as nat, block.align as nat);
            }
            if !with_states {
                match self.hash_table.insert_and_entry(key) {
                    Ok(_) => {},
                    Err(e) => {
                        proof {
                            setup.lemma_lookup_failed(start, kv, row + 1, keys@.len() as int);
                            setup.lemma_lookup_stopped(start, kv, row as int, keys@.len() as int);
                        }
                        return Err(e);
                    },
                }
                proof {
                    if !before.keys.contains(key@) {
                        assert(self.groups().states =~= before.states.push(setup.fresh_states()));
                    } else {
                        assert(self.groups().states =~= before.states);
                    }
                }
            } else {
                let used = self.area.len();
                if used <= limit && block.size <= limit - used {
                    let entry = match self.hash_table.insert_and_entry(key) {
                        Ok(entry) => entry,
                        Err(e) => {
                            proof {
                                setup.lemma_lookup_failed(start, kv, row + 1, keys@.len() as int);
                                setup.lemma_lookup_stopped(start, kv, row as int, keys@.len() as int);
                            }
                            return Err(e);
                        },
                    };
                    if entry.inserted {
                        let base = match self.params.alloc_layout(&mut self.area) {
                            Ok(Some(base)) => base,
                            Ok(None) => {
                                assert(false);
                                return Err(ErrorCode::AllocationFailure);
                            },
                            Err(e) => {
                                assert(false);
                                return Err(e);
                            },
                        };
                        self.hash_table.set_value(entry.index, base.addr());
                        places.push(base);
                        proof {
                            prev.lemma_group_added(&*self, key@);
                            assert forall|r: int| 0 <= r < row + 1 implies (#[trigger] places@[r])@
                                == (position(self.groups().keys, kv[r]) + 1) * block.size by {
                                if r < row {
                                    lemma_position_push(before.keys, kv[r], key@);
                                } else {
                                    lemma_position(self.groups().keys, count as int);
                                }
                            }
                        }
                    } else {
                        places.push(StateAddr::new(self.hash_table.value(entry.index)));
                        proof {
                            assert(self.groups().states =~= before.states);
                            lemma_position(before.keys, entry.index as int);
                        }
                    }
                } else {
                    match self.hash_table.get(key) {
                        Some(index) => {
                            places.push(StateAddr::new(self.hash_table.value(index)));
                            proof {
                                lemma_position(before.keys, index as int);
                            }
                        },
                        None => {
                            proof {
                                setup.lemma_lookup_failed(start, kv, row + 1, keys@.len() as int);
                                setup.lemma_lookup_stopped(start, kv, row as int, keys@.len() as int);
                            }
                            return Err(ErrorCode::AllocationFailure);
                        },
                    }
                }
            }
            proof {
                assert forall|r: int| 0 <= r < row + 1 implies self.groups().keys.contains(
                    #[trigger] kv[r],
                ) by {
                    if r < row {
                        let i = choose|i: int| 0 <= i < before.keys.len() && before.keys[i] == kv[r];
                        assert(self.groups().keys[i] == kv[r]);
                    } else if !before.keys.contains(key@) {
                        assert(self.groups().keys[count as int] == key@);
                    }
                }
            }
            row += 1;
        }
        Ok(places)
    }

    /// Writing into the scratch state leaves the groups as they are.
    proof fn lemma_scratch_written(&self, after: &Self, idx: int, bytes: Seq<u8>)
        requires
            self.wf(),
            HAS_AGG && self.params.functions().len() > 0,
            0 <= idx < self.params.functions().len(),
            bytes.len() == self.params.functions()[idx].spec_state_layout().size,
            after.method == self.method,
            after.params == self.params,
            after.temp_place == self.temp_place,
            after.hash_table == self.hash_table,
            after.area.spec_limit() == self.area.spec_limit(),
            after.area@ == spec_store(self.area@, self.params.offsets()[idx] as nat, bytes),
        ensures
            after.wf(),
            after.setup() == self.setup(),
            after.groups() == self.groups(),
            self.params.offsets()[idx] + bytes.len() <= self.area@.len(),
            spec_load(after.area@, self.params.offsets()[idx] as nat, bytes.len()) == bytes,
    {
        let params = *self.params;
        let size = params.block().size as nat;
        let count = self.hash_table.keys().len() as int;
        let layouts = function_layouts(params.functions());
        let place = params.offsets()[idx] as nat;
        assert(layouts[idx].align > 0);
        lemma_block_order(0, count + 1, size);
        lemma_store(self.area@, place, bytes);
        assert forall|i: int| 0 <= i < count implies (#[trigger] after.groups().states[i])
            == self.groups().states[i] by {
            let base = self.hash_table.values()[i] as nat;
            lemma_block_order(0, i + 1, size);
            lemma_block_order(i + 1, count + 1, size);
            assert forall|k: int| 0 <= k < params.functions().len() implies params.state_at(
                after.area@,
                base,
                k,
            ) == params.state_at(self.area@, base, k) by {
                assert(layouts[k].align > 0);
                assert(spec_load(
                    spec_store(self.area@, place, bytes),
                    base + (params.offsets()[k] as nat),
                    layouts[k].size as nat,
                ) == spec_load(
                    self.area@,
                    base + (params.offsets()[k] as nat),
                    layouts[k].size as nat,
                ));
            }
            assert(params.states_at(after.area@, base) =~= params.states_at(self.area@, base));
        }
        assert(after.groups().states =~= self.groups().states);
    }

    /// Writing into the state of function `idx` of group `group` changes
    /// that state and no other.
    proof fn lemma_state_written(&self, after: &Self, group: int, idx: int, bytes: Seq<u8>)
        requires
            self.wf(),
            HAS_AGG && self.params.functions().len() > 0,
            0 <= group < self.hash_table.keys().len(),
            0 <= idx < self.params.functions().len(),
            bytes.len() == self.params.functions()[idx].spec_state_layout().size,
            after.method == self.method,
            after.params == self.params,
            after.temp_place == self.temp_place,
            after.hash_table == self.hash_table,
            after.area.spec_limit() == self.area.spec_limit(),
            after.area@ == spec_store(
                self.area@,
                ((group + 1) * self.params.block().size + self.params.offsets()[idx]) as nat,
                bytes,
            ),
        ensures
            after.wf(),
            after.setup() == self.setup(),
            after.groups() == (Groups {
                keys: self.groups().keys,
                states: self.groups().states.update(
                    group,
                    self.groups().states[group].update(idx, bytes),
                ),
            }),
    {
        let params = *self.params;
        let size = params.block().size as nat;
        let count = self.hash_table.keys().len() as int;
        let layouts = function_layouts(params.functions());
        let home = ((group + 1) * size) as nat;
        let place = home + (params.offsets()[idx] as nat);
        assert(layouts[idx].align > 0);
        lemma_block_order(group + 1, count + 1, size);
        lemma_store(self.area@, place, bytes);
        let wanted = self.groups().states.update(
            group,
            self.groups().states[group].update(idx, bytes),
        );
        assert forall|i: int| 0 <= i < count implies (#[trigger] after.groups().states[i])
            == wanted[i] by {
            let base = self.hash_table.values()[i] as nat;
            lemma_block_order(i + 1, count + 1, size);
            if i < group {
                lemma_block_order(i + 1, group + 1, size);
            } else if group < i {
                lemma_block_order(group + 1, i + 1, size);
            }
            assert forall|k: int| 0 <= k < params.functions().len() implies params.state_at(
                after.area@,
                base,
                k,
            ) == if i == group && k == idx {
                bytes
            } else {
                params.state_at(self.area@, base, k)
            } by {
                assert(layouts[k].align > 0);
                if i == group && k == idx {
                } else {
                    if i == group {
                        if k < idx {
                            assert(params.offsets()[k] + layouts[k].size <= params.offsets()[idx]);
                        } else {
                            assert(params.offsets()[idx] + layouts[idx].size <= params.offsets()[k]);
                        }
                    }
                    assert(spec_load(
                        spec_store(self.area@, place, bytes),
                        base + (params.offsets()[k] as nat),
                        layouts[k].size as nat,
                    ) == spec_load(
                        self.area@,
                        base + (params.offsets()[k] as nat),
                        layouts[k].size as nat,
                    ));
                }
            }
            if i == group {
                assert(params.states_at(after.area@, base) =~= self.groups().states[group].update(
                    idx,
                    bytes,
                ));
            } else {
                assert(params.states_at(after.area@, base) =~= params.states_at(self.area@, base));
            }
        }
        assert(after.groups().states =~= wanted);
    }

    /// Merges the serialized states of every row of `chunk` into the state
    /// block of the row's group, row by row and, within a row, function by
    /// function: each state is read into the scratch state and folded from
    /// there into the group's state. Stops at the first failure.
    fn merge_rows(&mut self, chunk: &Chunk, keys: &Vec<Vec<u8>>, places: &Vec<StateAddr>) -> (r:
        Result<(), ErrorCode>)
        requires
            old(self).wf(),
            old(self).setup().with_states(),
            old(self).setup().function_count() < chunk.entries().len(),
            entries_full(chunk.entries()),
            old(self).setup().bad_state_column(
                chunk@,
                old(self).setup().function_count() as int,
            ) is None,
            keys@.len() == chunk.rows(),
            forall|r: int|
                0 <= r < keys@.len() ==> old(self).groups().keys.contains(
                    #[trigger] key_views(keys@)[r],
                ),
            spec_places(
                old(self).setup(),
                old(self).groups().keys,
                key_views(keys@),
                places@,
                keys@.len() as int,
            ),
        ensures
            final(self).wf(),
            final(self).setup() == old(self).setup(),
            final(self).groups() == old(self).setup().merge_rows_reached(
                old(self).groups(),
                chunk@,
                key_views(keys@),
                keys@.len() as int,
            ),
            match old(self).setup().merge_rows(
                old(self).groups(),
                chunk@,
                key_views(keys@),
                keys@.len() as int,
            ) {
                Ok(_) => r is Ok,
                Err(e) => r == Err::<(), ErrorCode>(e),
            },
    {
        let ghost setup = self.setup();
        let ghost start = self.groups();
        let ghost kv = key_views(keys@);
        let ghost view = chunk@;
        let count = self.params.aggregate_functions().len();
        let block = self.params.state_block();
        let temp = match self.temp_place {
            Some(temp) => temp,
            None => {
                assert(false);
                return Ok(());
            },
        };
        let used = self.area.len();
        let mut row: usize = 0;
        while row < keys.len()
            invariant
                row <= keys@.len(),
                self.wf(),
                self.setup() == setup,
                setup == old(self).setup(),
                start == old(self).groups(),
                kv == key_views(keys@),
                view == chunk@,
                setup.with_states(),
                HAS_AGG,
                count == setup.function_count(),
                count < chunk.entries().len(),
                block == setup.params.block(),
                self.temp_place == Some(temp),
                used == self.area@.len(),
                entries_full(chunk.entries()),
                setup.bad_state_column(view, count as int) is None,
                keys@.len() == chunk.rows(),
                forall|r: int| 0 <= r < keys@.len() ==> start.keys.contains(#[trigger] kv[r]),
                spec_places(setup, start.keys, kv, places@, keys@.len() as int),
                self.groups().keys == start.keys,
                setup.merge_rows(start, view, kv, row as int) == Ok::<Groups, ErrorCode>(
                    self.groups(),
                ),
            decreases keys@.len() - row,
        {
            let ghost row_start = self.groups();
            let place = places[row];
            let ghost group = position(start.keys, kv[row as int]);
            proof {
                assert(start.keys.contains(kv[row as int]));
                self.hash_table.lemma_wf();
                lemma_block_order(0, group + 1, block.size as nat);
                lemma_block_order(group + 1, (start.keys.len() + 1) as int, block.size as nat);
                assert(block.size <= (group + 1) * block.size);
            }
            let mut idx: usize = 0;
            while idx < count
                invariant
                    idx <= count,
                    row < keys@.len(),
                    self.wf(),
                    self.setup() == setup,
                    setup == old(self).setup(),
                    kv == key_views(keys@),
                    view == chunk@,
                    setup.with_states(),
                    HAS_AGG,
                    count == setup.function_count(),
                    count < chunk.entries().len(),
                    block == setup.params.block(),
                    self.temp_place == Some(temp),
                    used == self.area@.len(),
                    entries_full(chunk.entries()),
                    setup.bad_state_column(view, count as int) is None,
                    keys@.len() == chunk.rows(),
                    start == old(self).groups(),
                    place@ == (group + 1) * block.size,
                    0 <= group < start.keys.len(),
                    group == position(start.keys, kv[row as int]),
                    block.size <= (group + 1) * block.size,
                    (group + 1) * block.size + block.size <= used,
                    self.groups().keys == start.keys,
                    row_start.keys == start.keys,
                    setup.merge_rows(start, view, kv, row as int) == Ok::<Groups, ErrorCode>(
                        row_start,
                    ),
                    setup.merge_row(row_start, view, kv, row as int, idx as int) == Ok::<
                        Groups,
                        ErrorCode,
                    >(self.groups()),
                decreases count - idx,
            {
                let ghost prev = *self;
                let ghost before = self.groups();
                let ghost layouts = function_layouts(setup.params.functions());
                proof {
                    setup.lemma_bad_state_column(view, count as int, count as int);
                    assert(view.columns[idx as int].storage_type == DataType::String);
                    assert(layouts[idx as int].align > 0);
                }
                let offset = self.params.offsets_aggregate_states()[idx];
                let entry = chunk.column(idx);
                let bytes: &Vec<u8> = match &entry.value {
                    Value::Column(Column::String(values)) => &values[row],
                    _ => {
                        assert(false);
                        return Ok(());
                    },
                };
                let ghost partial = partial_state(view.columns[idx as int], row as int);
                assert(partial == bytes@);
                let state_place = temp.next(offset);
                let final_place = place.next(offset);
                match self.params.aggregate_functions()[idx].deserialize(
                    &mut self.area,
                    state_place,
                    bytes,
                ) {
                    Ok(()) => {},
                    Err(e) => {
                        proof {
                            assert(setup.merge_cell(before, group, idx as int, partial) == Err::<
                                Groups,
                                ErrorCode,
                            >(e));
                            assert(setup.merge_row(row_start, view, kv, row as int, idx + 1)
                                == Err::<Groups, ErrorCode>(e));
                            setup.lemma_merge_row_failed(
                                row_start,
                                view,
                                kv,
                                row as int,
                                idx + 1,
                                count as int,
                            );
                            assert(setup.merge_rows(start, view, kv, row + 1) == Err::<
                                Groups,
                                ErrorCode,
                            >(e));
                            setup.lemma_merge_rows_failed(
                                start,
                                view,
                                kv,
                                row + 1,
                                keys@.len() as int,
                            );
                            setup.lemma_merge_row_stopped(
                                row_start,
                                view,
                                kv,
                                row as int,
                                idx as int,
                                count as int,
                            );
                            setup.lemma_merge_rows_stopped(
                                start,
                                view,
                                kv,
                                row as int,
                                keys@.len() as int,
                            );
                        }
                        return Err(e);
                    },
                }
                let ghost incoming = setup.params.functions()[idx as int].spec_deserialize(
                    partial,
                )->Ok_0;
                proof {
                    prev.lemma_scratch_written(&*self, idx as int, incoming);
                    self.hash_table.lemma_wf();
                    assert(self.hash_table.values()[group] == (group + 1) * block.size);
                    assert(before.states[group] == setup.params.states_at(
                        self.area@,
                        self.hash_table.values()[group] as nat,
                    ));
                    assert(before.states[group][idx as int] == spec_load(
                        self.area@,
                        final_place@,
                        layouts[idx as int].size as nat,
                    ));
                }
                let ghost mid = *self;
                match self.params.aggregate_functions()[idx].merge(
                    &mut self.area,
                    final_place,
                    state_place,
                ) {
                    Ok(()) => {},
                    Err(e) => {
                        proof {
                            assert(setup.merge_cell(before, group, idx as int, partial) == Err::<
                                Groups,
                                ErrorCode,
                            >(e));
                            assert(setup.merge_row(row_start, view, kv, row as int, idx + 1)
                                == Err::<Groups, ErrorCode>(e));
                            setup.lemma_merge_row_failed(
                                row_start,
                                view,
                                kv,
                                row as int,
                                idx + 1,
                                count as int,
                            );
                            assert(setup.merge_rows(start, view, kv, row + 1) == Err::<
                                Groups,
                                ErrorCode,
                            >(e));
                            setup.lemma_merge_rows_failed(
                                start,
                                view,
                                kv,
                                row + 1,
                                keys@.len() as int,
                            );
                            setup.lemma_merge_row_stopped(
                                row_start,
                                view,
                                kv,
                                row as int,
                                idx as int,
                                count as int,
                            );
                            setup.lemma_merge_rows_stopped(
                                start,
                                view,
                                kv,
                                row as int,
                                keys@.len() as int,
                            );
                        }
                        return Err(e);
                    },
                }
                proof {
                    let merged = setup.params.functions()[idx as int].spec_merge(
                        before.states[group][idx as int],
                        incoming,
                    )->Ok_0;
                    mid.lemma_state_written(&*self, group, idx as int, merged);
                }
                idx += 1;
            }
            row += 1;
        }
        Ok(())
    }

    /// Folds one chunk into the groups: spreads out its scalars, reads the
    /// keys of its rows, finds or makes their groups and, where states are
    /// merged, checks that the state columns hold byte strings and merges
    /// them.
    #[verifier::loop_isolation(false)]
    fn merge_chunk(&mut self, chunk: &Chunk) -> (r: Result<(), ErrorCode>)
        requires
            old(self).wf(),
            old(self).setup().function_count() < chunk@.columns.len(),
        ensures
            final(self).wf(),
            final(self).setup() == old(self).setup(),
            final(self).groups() == old(self).setup().merge_chunk_reached(old(self).groups(), chunk@),
            match old(self).setup().merge_chunk(old(self).groups(), chunk@) {
                Ok(_) => r is Ok,
                Err(e) => r == Err::<(), ErrorCode>(e),
            },
    {
        let ghost setup = self.setup();
        let ghost start = self.groups();
        let ghost view = chunk@;
        let full = chunk.convert_to_full();
        let count = self.params.aggregate_functions().len();
        let keys_entry = full.column(count);
        let keys_column = match &keys_entry.value {
            Value::Column(column) => column,
            Value::Scalar(_) => {
                assert(false);
                return Ok(());
            },
        };
        let keys = match self.method.keys_iter_from_column(keys_column) {
            Ok(keys) => keys,
            Err(e) => {
                return Err(e);
            },
        };
        let ghost kv = key_views(keys@);
        assert(setup.chunk_keys(view) == Ok::<Seq<Seq<u8>>, ErrorCode>(kv));
        let places = match self.lookup_state(&keys) {
            Ok(places) => places,
            Err(e) => {
                return Err(e);
            },
        };
        let ghost found = self.groups();
        if HAS_AGG {
            let mut idx: usize = 0;
            while idx < count
                invariant
                    idx <= count,
                    count == setup.function_count(),
                    count < full.entries().len(),
                    entries_full(full.entries()),
                    full@ == view,
                    setup.bad_state_column(view, idx as int) is None,
                decreases count - idx,
            {
                let entry = full.column(idx);
                let holds_strings = match &entry.value {
                    Value::Column(column) => column.as_string().is_some(),
                    Value::Scalar(_) => false,
                };
                if !holds_strings {
                    proof {
                        setup.lemma_bad_state_column(view, idx + 1, count as int);
                    }
                    return Err(ErrorCode::IllegalDataType(entry.data_type));
                }
                idx += 1;
            }
            if count > 0 {
                proof {
                    setup.lemma_lookup_keys(start, kv, kv.len() as int);
                }
                return self.merge_rows(&full, &keys, &places);
            }
            proof {
                setup.lemma_merge_rows_without_functions(found, view, kv, kv.len() as int);
            }
        }
        Ok(())
    }

    /// Folds `chunks` into the groups, in order, and emits the groups as
    /// one chunk. Every chunk has to hold the state columns and, behind
    /// them, the key column. Stops at the first failure; what had been
    /// folded by then stays folded.
    pub fn merge_chunks(&mut self, chunks: Vec<Chunk>) -> (r: Result<Vec<Chunk>, ErrorCode>)
        requires
            old(self).wf(),
            forall|i: int|
                0 <= i < chunks@.len() ==> old(self).setup().function_count() < (
                #[trigger] chunks@[i])@.columns.len(),
        ensures
            final(self).wf(),
            final(self).setup() == old(self).setup(),
            final(self).groups() == old(self).setup().merge_chunks_reached(
                old(self).groups(),
                chunk_views(chunks@),
                chunks@.len() as int,
            ),
            match old(self).setup().merge_chunks(
                old(self).groups(),
                chunk_views(chunks@),
                chunks@.len() as int,
            ) {
                Ok(groups) => match old(self).setup().emit(groups) {
                    Ok(view) => r matches Ok(output) && output@.len() == 1 && output@[0]@ == view,
                    Err(e) => r == Err::<Vec<Chunk>, ErrorCode>(e),
                },
                Err(e) => r == Err::<Vec<Chunk>, ErrorCode>(e),
            },
    {
        let ghost setup = self.setup();
        let ghost start = self.groups();
        let ghost views = chunk_views(chunks@);
        let mut i: usize = 0;
        while i < chunks.len()
            invariant
                i <= chunks@.len(),
                self.wf(),
                self.setup() == setup,
                setup == old(self).setup(),
                start == old(self).groups(),
                views == chunk_views(chunks@),
                forall|k: int|
                    0 <= k < chunks@.len() ==> setup.function_count() < (#[trigger] chunks@[k])@.columns.len(),
                setup.merge_chunks(start, views, i as int) == Ok::<Groups, ErrorCode>(self.groups()),
            decreases chunks@.len() - i,
        {
            assert(views[i as int] == chunks@[i as int]@);
            match self.merge_chunk(&chunks[i]) {
                Ok(()) => {},
                Err(e) => {
                    proof {
                        setup.lemma_merge_chunks_failed(start, views, i + 1, chunks@.len() as int);
                        setup.lemma_merge_chunks_stopped(
                            start,
                            views,
                            i as int,
                            chunks@.len() as int,
                        );
                    }
                    return Err(e);
                },
            }
            i += 1;
        }
        match self.emit() {
            Ok(chunk) => {
                let mut output: Vec<Chunk> = Vec::new();
                output.push(chunk);
                Ok(output)
            },
            Err(e) => Err(e),
        }
    }

    /// The chunk for the groups gathered so far: one row per group, in the
    /// order of the groups.
    #[verifier::loop_isolation(false)]
    pub fn emit(&self) -> (r: Result<Chunk, ErrorCode>)
        requires
            self.wf(),
        ensures
            match self.setup().emit(self.groups()) {
                Ok(view) => r matches Ok(chunk) && chunk@ == view,
                Err(e) => r == Err::<Chunk, ErrorCode>(e),
            },
    {
        let ghost setup = self.setup();
        let ghost groups = self.groups();
        let groups_len = self.hash_table.len();
        let count = self.params.aggregate_functions().len();
        let schema = self.params.output_schema();
        let block = self.params.state_block();
        let used = self.area.len();
        let mut builders: Vec<Column> = Vec::new();
        if HAS_AGG {
            let mut idx: usize = 0;
            while idx < count
                invariant
                    idx <= count,
                    self.wf(),
                    self.setup() == setup,
                    count == setup.function_count(),
                    builders@.len() == idx,
                    setup.return_type_error(idx as int) is None,
                    forall|k: int|
                        0 <= k < idx ==> setup.params.functions()[k].spec_return_type() == Ok::<
                            DataType,
                            ErrorCode,
                        >((#[trigger] builders@[k]).spec_data_type()) && builders@[k]@.len() == 0,
                decreases count - idx,
            {
                match self.params.aggregate_functions()[idx].return_type() {
                    Ok(data_type) => {
                        builders.push(Column::empty(data_type));
                    },
                    Err(e) => {
                        proof {
                            assert(setup.return_type_error(idx + 1) == Some(e));
                            setup.lemma_return_type_error(idx + 1, count as int);
                        }
                        return Err(e);
                    },
                }
                idx += 1;
            }
            let mut group: usize = 0;
            while group < groups_len
                invariant
                    group <= groups_len,
                    self.wf(),
                    self.setup() == setup,
                    self.groups() == groups,
                    HAS_AGG,
                    groups_len == groups.keys.len(),
                    count == setup.function_count(),
                    block == setup.params.block(),
                    used == self.area@.len(),
                    builders@.len() == count,
                    setup.return_type_error(count as int) is None,
                    setup.results_error(groups, group as int) is None,
                    forall|k: int|
                        0 <= k < count ==> {
                            &&& setup.params.functions()[k].spec_return_type() == Ok::<
                                DataType,
                                ErrorCode,
                            >((#[trigger] builders@[k]).spec_data_type())
                            &&& builders@[k]@ == Seq::new(
                                group as nat,
                                |g: int| setup.result_cell(groups, g, k)->Ok_0,
                            )
                        },
                decreases groups_len - group,
            {
                let base = StateAddr::new(self.hash_table.value(group));
                proof {
                    self.hash_table.lemma_wf();
                    lemma_block_order(group + 1, (groups_len + 1) as int, block.size as nat);
                }
                let mut idx: usize = 0;
                while idx < count
                    invariant
                        idx <= count,
                        group < groups_len,
                        self.wf(),
                        self.setup() == setup,
                        self.groups() == groups,
                        HAS_AGG,
                        groups_len == groups.keys.len(),
                        count == setup.function_count(),
                        block == setup.params.block(),
                        used == self.area@.len(),
                        count > 0 ==> base@ == (group + 1) * block.size,
                        count > 0 ==> base@ + block.size <= used,
                        builders@.len() == count,
                        setup.group_error(groups, group as int, idx as int) is None,
                        forall|k: int|
                            0 <= k < count ==> {
                                &&& setup.params.functions()[k].spec_return_type() == Ok::<
                                    DataType,
                                    ErrorCode,
                                >((#[trigger] builders@[k]).spec_data_type())
                                &&& builders@[k]@ == Seq::new(
                                    if k < idx {
                                        (group + 1) as nat
                                    } else {
                                        group as nat
                                    },
                                    |g: int| setup.result_cell(groups, g, k)->Ok_0,
                                )
                            },
                    decreases count - idx,
                {
                    let ghost layouts = function_layouts(setup.params.functions());
                    let ghost rows_before = builders@[idx as int]@;
                    proof {
                        assert(layouts[idx as int].align > 0);
                        assert(groups.states[group as int] == setup.params.states_at(
                            self.area@,
                            self.hash_table.values()[group as int] as nat,
                        ));
                    }
                    let place = base.next(self.params.offsets_aggregate_states()[idx]);
                    match self.params.aggregate_functions()[idx].merge_result(
                        &self.area,
                        place,
                        &mut builders[idx],
                    ) {
                        Ok(()) => {},
                        Err(e) => {
                            proof {
                                assert(setup.group_error(groups, group as int, idx + 1) == Some(e));
                                setup.lemma_group_error(groups, group as int, idx + 1, count as int);
                                assert(setup.results_error(groups, group + 1) == Some(e));
                                setup.lemma_results_error(groups, group + 1, groups_len as int);
                            }
                            return Err(e);
                        },
                    }
                    proof {
                        assert(builders@[idx as int]@ =~= Seq::new(
                            (group + 1) as nat,
                            |g: int| setup.result_cell(groups, g, idx as int)->Ok_0,
                        ));
                    }
                    idx += 1;
                }
                group += 1;
            }
        }
        let mut builder = self.method.group_columns_builder(groups_len);
        let mut group: usize = 0;
        while group < groups_len
            invariant
                group <= groups_len,
                self.wf(),
                self.groups() == groups,
                self.setup() == setup,
                groups_len == groups.keys.len(),
                builder.method() == setup.method,
                builder.rows() == setup.method.spec_group_values(groups.keys.subrange(0, group as int)),
            decreases groups_len - group,
        {
            builder.append_value(self.hash_table.key(group));
            group += 1;
            assert(builder.rows() =~= setup.method.spec_group_values(
                groups.keys.subrange(0, group as int),
            ));
        }
        assert(groups.keys.subrange(0, groups_len as int) =~= groups.keys);
        let mut group_columns = builder.finish();
        let group_column = match group_columns.pop() {
            Some(column) => column,
            None => {
                assert(false);
                Column::empty(self.method.key_type())
            },
        };
        let mut entries: Vec<ChunkEntry> = Vec::new();
        let ghost results = builders@;
        let produced = builders.len();
        while builders.len() > 0
            invariant
                results.len() == produced <= count,
                count + 1 == schema.fields@.len(),
                entries@.len() + builders@.len() == produced,
                builders@ == results.subrange(entries@.len() as int, produced as int),
                forall|k: int|
                    0 <= k < entries@.len() ==> (#[trigger] entries@[k]).value == Value::Column(
                        results[k],
                    ) && entries@[k].data_type == schema.fields@[k].data_type,
            decreases builders@.len(),
        {
            let column = builders.remove(0);
            let data_type = schema.fields[entries.len()].data_type;
            entries.push(ChunkEntry { value: Value::Column(column), data_type });
            assert(builders@ =~= results.subrange(entries@.len() as int, produced as int));
        }
        let field = if HAS_AGG {
            count
        } else {
            0
        };
        entries.push(
            ChunkEntry { value: Value::Column(group_column), data_type: schema.fields[field].data_type },
        );
        let chunk = Chunk::from_columns(entries, groups_len);
        proof {
            let view = setup.emit(groups)->Ok_0;
            assert(chunk@.columns =~= view.columns);
        }
        Ok(chunk)
    }
}

/// `n` as a counter shows it: counters stop at the largest machine word.
pub open spec fn spec_saturated(n: int) -> int {
    if n <= usize::MAX {
        n
    } else {
        usize::MAX as int
    }
}

/// Writing the state of function `idx` of block `block` changes that state
/// and no other state of any block.
pub proof fn lemma_block_store<F: AggregateFunction>(
    params: AggregatorParams<F>,
    mem: Seq<u8>,
    blocks: int,
    block: int,
    idx: int,
    bytes: Seq<u8>,
)
    requires
        params.wf(),
        0 <= block < blocks,
        0 <= idx < params.functions().len(),
        mem.len() == blocks * params.block().size,
        bytes.len() == params.functions()[idx].spec_state_layout().size,
    ensures
        block * params.block().size + params.offsets()[idx] + bytes.len() <= mem.len(),
        forall|b: int, k: int|
            0 <= b < blocks && 0 <= k < params.functions().len() ==> #[trigger] params.block_state(
                spec_store(
                    mem,
                    (block * params.block().size + params.offsets()[idx]) as nat,
                    bytes,
                ),
                b,
                k,
            ) == if b == block && k == idx {
                bytes
            } else {
                params.block_state(mem, b, k)
            },
{
    let size = params.block().size as nat;
    let layouts = function_layouts(params.functions());
    let place = (block * size + params.offsets()[idx]) as nat;
    let after = spec_store(mem, place, bytes);
    assert(layouts[idx].align > 0);
    if block + 1 < blocks {
        lemma_block_order(block, blocks - 1, size);
    }
    assert(blocks * size == (blocks - 1) * size + size) by (nonlinear_arith);
    assert(block * size >= 0) by (nonlinear_arith)
        requires
            block >= 0,
            size >= 0,
    ;
    lemma_store(mem, place, bytes);
    assert forall|b: int, k: int|
        0 <= b < blocks && 0 <= k < params.functions().len() implies #[trigger] params.block_state(
        after,
        b,
        k,
    ) == if b == block && k == idx {
        bytes
    } else {
        params.block_state(mem, b, k)
    } by {
        assert(layouts[k].align > 0);
        assert(b * size >= 0) by (nonlinear_arith)
            requires
                b >= 0,
                size >= 0,
        ;
        if b + 1 < blocks {
            lemma_block_order(b, blocks - 1, size);
        }
        if b < block {
            lemma_block_order(b, block, size);
        } else if block < b {
            lemma_block_order(block, b, size);
        }
        if b == block && k == idx {
        } else {
            if b == block {
                if k < idx {
                    assert(params.offsets()[k] + layouts[k].size <= params.offsets()[idx]);
                } else {
                    assert(params.offsets()[idx] + layouts[idx].size <= params.offsets()[k]);
                }
            }
            assert(spec_load(
                spec_store(mem, place, bytes),
                (b * size) as nat + (params.offsets()[k] as nat),
                layouts[k].size as nat,
            ) == spec_load(
                mem,
                (b * size) as nat + (params.offsets()[k] as nat),
                layouts[k].size as nat,
            ));
        }
    }
}

/// The addresses of the states of the first `upto` functions in state
/// block `block` that must be released one by one, in the order of the
/// functions.
pub open spec fn spec_block_order<F: AggregateFunction>(
    params: AggregatorParams<F>,
    block: int,
    upto: int,
) -> Seq<nat>
    decreases upto,
{
    if upto <= 0 {
        Seq::empty()
    } else if params.functions()[upto - 1].spec_need_manual_drop_state() {
        spec_block_order(params, block, upto - 1).push(
            (block * params.block().size + params.offsets()[upto - 1]) as nat,
        )
    } else {
        spec_block_order(params, block, upto - 1)
    }
}

/// Where no function needs a manual drop, no state of a block is released.
pub proof fn lemma_block_order_empty<F: AggregateFunction>(
    params: AggregatorParams<F>,
    block: int,
    upto: int,
)
    requires
        upto <= params.functions().len(),
        forall|k: int|
            0 <= k < params.functions().len() ==> !(
            #[trigger] params.functions()[k]).spec_need_manual_drop_state(),
    ensures
        spec_block_order(params, block, upto) == Seq::<nat>::empty(),
    decreases upto,
{
    if upto > 0 {
        lemma_block_order_empty(params, block, upto - 1);
    }
}

/// Where no function needs a manual drop, no state of a group is released.
pub proof fn lemma_groups_order_empty<F: AggregateFunction>(params: AggregatorParams<F>, upto: int)
    requires
        forall|k: int|
            0 <= k < params.functions().len() ==> !(
            #[trigger] params.functions()[k]).spec_need_manual_drop_state(),
    ensures
        spec_groups_order(params, upto) == Seq::<nat>::empty(),
    decreases upto,
{
    if upto > 0 {
        lemma_groups_order_empty(params, upto - 1);
        lemma_block_order_empty(params, upto, params.functions().len() as int);
    }
}

/// The addresses of the states of the first `upto` groups that must be
/// released one by one: group by group in the order of the groups and,
/// within a group, in the order of the functions.
pub open spec fn spec_groups_order<F: AggregateFunction>(
    params: AggregatorParams<F>,
    upto: int,
) -> Seq<nat>
    decreases upto,
{
    if upto <= 0 {
        Seq::empty()
    } else {
        spec_groups_order(params, upto - 1) + spec_block_order(
            params,
            upto,
            params.functions().len() as int,
        )
    }
}

/// Releases the states of one block that need it, function by function.
/// Returns the counter of destructor calls, moved on by the calls made,
/// and the record of the calls, with the calls made behind it.
fn release_block<F: AggregateFunction>(
    params: &AggregatorParams<F>,
    area: &mut Area,
    base: StateAddr,
    calls: usize,
    order: Ghost<Seq<nat>>,
    blocks: Ghost<int>,
    block: Ghost<int>,
) -> (r: (usize, Ghost<Seq<nat>>))
    requires
        params.wf(),
        0 <= block@ < blocks@,
        old(area)@.len() == blocks@ * params.block().size,
        base@ == block@ * params.block().size,
    ensures
        final(area)@.len() == old(area)@.len(),
        final(area).spec_limit() == old(area).spec_limit(),
        r.0 == spec_saturated(calls + params.manual_drops()),
        r.1@ == order@ + spec_block_order(*params, block@, params.functions().len() as int),
        forall|b: int, k: int|
            0 <= b < blocks@ && 0 <= k < params.functions().len() ==> #[trigger] params.block_state(
                final(area)@,
                b,
                k,
            ) == if b == block@ {
                params.released_state(params.block_state(old(area)@, b, k), k)
            } else {
                params.block_state(old(area)@, b, k)
            },
{
    let functions = params.aggregate_functions();
    let offsets = params.offsets_aggregate_states();
    let count = functions.len();
    let total = area.len();
    let mut calls = calls;
    let ghost start = calls;
    let ghost made = order@;
    let mut idx: usize = 0;
    while idx < count
        invariant
            idx <= count,
            params.wf(),
            functions@ == params.functions(),
            offsets@ == params.offsets(),
            count == params.functions().len(),
            0 <= block@ < blocks@,
            area@.len() == old(area)@.len() == total,
            old(area)@.len() == blocks@ * params.block().size,
            base@ == block@ * params.block().size,
            area.spec_limit() == old(area).spec_limit(),
            calls == spec_saturated(start + spec_manual_drop_count(params.functions(), idx as int)),
            made == order@ + spec_block_order(*params, block@, idx as int),
            forall|b: int, k: int|
                0 <= b < blocks@ && 0 <= k < count ==> #[trigger] params.block_state(area@, b, k)
                    == if b == block@ && k < idx {
                    params.released_state(params.block_state(old(area)@, b, k), k)
                } else {
                    params.block_state(old(area)@, b, k)
                },
        decreases count - idx,
    {
        if functions[idx].need_manual_drop_state() {
            let ghost mem = area@;
            let ghost state = params.block_state(mem, block@, idx as int);
            proof {
                assert(state == spec_load(
                    mem,
                    (base@ + offsets@[idx as int]) as nat,
                    params.functions()[idx as int].spec_state_layout().size as nat,
                ));
                let layouts = function_layouts(params.functions());
                assert(layouts[idx as int].align > 0);
                lemma_block_order(block@, blocks@, params.block().size as nat);
            }
            let place = base.next(offsets[idx]);
            functions[idx].drop_state(area, place);
            proof {
                made = made.push(place@);
                assert(made =~= order@ + spec_block_order(*params, block@, idx + 1));
                lemma_block_store(
                    *params,
                    mem,
                    blocks@,
                    block@,
                    idx as int,
                    params.functions()[idx as int].spec_drop_state(state),
                );
            }
            calls = calls.saturating_add(1);
        }
        idx += 1;
    }
    (calls, Ghost(made))
}

/// What the release of an aggregator leaves behind.
pub struct Released {
    /// Number of destructor calls that were made.
    pub destructor_calls: usize,
    /// The addresses of the states that were released, in the order of
    /// the destructor calls.
    pub order: Ghost<Seq<nat>>,
    /// The arena with the released states; dropping it reclaims its
    /// memory.
    pub area: Area,
}

impl<const HAS_AGG: bool, F: AggregateFunction> BucketAggregator<HAS_AGG, F> {
    /// Number of states that must be released one by one: one per state
    /// block and function that needs it.
    pub open spec fn spec_live_states(&self) -> int {
        (self.blocks() * self.setup().params.manual_drops()) as int
    }

    /// Counts the states that must be released one by one.
    pub fn live_states(&self) -> (count: usize)
        requires
            self.wf(),
        ensures
            count == spec_saturated(self.spec_live_states()),
    {
        let per_block = self.params.manual_drop_count();
        let blocks: usize = if self.params.aggregate_functions().len() == 0 {
            0
        } else if HAS_AGG {
            proof {
                self.hash_table.lemma_wf();
            }
            self.hash_table.len() + 1
        } else {
            1
        };
        match blocks.checked_mul(per_block) {
            Some(count) => count,
            None => usize::MAX,
        }
    }

    /// The addresses of the states that must be released one by one, in
    /// the order of their release: those of the groups first, then those
    /// of the scratch state.
    pub open spec fn spec_release_order(&self) -> Seq<nat> {
        let params = self.setup().params;
        if self.setup().function_count() == 0 {
            Seq::empty()
        } else if self.setup().has_agg {
            spec_groups_order(params, self.groups().keys.len() as int) + spec_block_order(
                params,
                0,
                params.functions().len() as int,
            )
        } else {
            spec_block_order(params, 0, params.functions().len() as int)
        }
    }

    /// Ends the aggregator: releases every state that needs it, exactly
    /// once. The states of the groups go first, group by group in the
    /// order of the groups; the scratch state goes last. The arena is
    /// handed back for its memory to be reclaimed.
    pub fn release(self) -> (r: Released)
        requires
            self.wf(),
        ensures
            r.destructor_calls == spec_saturated(self.spec_live_states()),
            r.order@ == self.spec_release_order(),
            r.area@.len() == self.memory().len(),
            forall|block: int, idx: int|
                0 <= block < self.blocks() && 0 <= idx < self.setup().function_count()
                    ==> #[trigger] self.setup().params.block_state(r.area@, block, idx)
                    == self.setup().params.released_state(
                    self.setup().params.block_state(self.memory(), block, idx),
                    idx,
                ),
    {
        let ghost blocks = self.blocks() as int;
        let ghost config = self.setup().params;
        let ghost before = self.area@;
        let ghost per_block = self.params.manual_drops() as int;
        let count = self.params.aggregate_functions().len();
        let block = self.params.state_block();
        let mut area = self.area;
        let params = self.params;
        let hash_table = self.hash_table;
        let mut calls: usize = 0;
        let mut order: Ghost<Seq<nat>> = Ghost(Seq::empty());
        if params.manual_drop_count() == 0 {
            proof {
                assert(blocks * 0 == 0) by (nonlinear_arith);
                lemma_no_manual_drops(params.functions(), count as int);
                lemma_groups_order_empty(config, self.groups().keys.len() as int);
                lemma_block_order_empty(config, 0, count as int);
            }
            return Released { destructor_calls: 0, order, area };
        }
        if HAS_AGG && count > 0 {
            let groups = hash_table.len();
            proof {
                hash_table.lemma_wf();
            }
            let mut group: usize = 0;
            while group < groups
                invariant
                    group <= groups,
                    hash_table.wf(),
                    groups == hash_table.keys().len(),
                    groups + 1 == blocks,
                    params.wf(),
                    count == params.functions().len(),
                    block == params.block(),
                    per_block == params.manual_drops(),
                    area@.len() == before.len() == blocks * block.size,
                    hash_table.values().len() == groups,
                    forall|i: int|
                        0 <= i < groups ==> (#[trigger] hash_table.values()[i]) == (i + 1)
                            * block.size,
                    calls == spec_saturated(group * per_block),
                    config == *params,
                    order@ == spec_groups_order(config, group as int),
                    forall|b: int, k: int|
                        0 <= b < blocks && 0 <= k < count ==> #[trigger] params.block_state(
                            area@,
                            b,
                            k,
                        ) == if 1 <= b <= group {
                            params.released_state(params.block_state(before, b, k), k)
                        } else {
                            params.block_state(before, b, k)
                        },
                decreases groups - group,
            {
                proof {
                    hash_table.lemma_wf();
                    assert((group + 1) * per_block == group * per_block + per_block)
                        by (nonlinear_arith);
                    assert(group * per_block >= 0) by (nonlinear_arith)
                        requires
                            per_block >= 0,
                    ;
                }
                let base = StateAddr::new(hash_table.value(group));
                let released = release_block(
                    &params,
                    &mut area,
                    base,
                    calls,
                    order,
                    Ghost(blocks),
                    Ghost(group + 1),
                );
                calls = released.0;
                order = released.1;
                group += 1;
            }
        }
        proof {
            lemma_manual_drop_count(config.functions(), count as int);
            assert(count > 0);
            assert(blocks >= 1);
            assert(blocks * per_block == (blocks - 1) * per_block + per_block) by (nonlinear_arith);
            assert((blocks - 1) * per_block >= 0) by (nonlinear_arith)
                requires
                    blocks >= 1,
                    per_block >= 0,
            ;
            if !HAS_AGG {
                assert((blocks - 1) * per_block == 0) by (nonlinear_arith)
                    requires
                        blocks == 1,
                ;
            }
            assert(calls == spec_saturated((blocks - 1) * per_block));
            assert(self.temp_place is Some);
        }
        if let Some(temp) = self.temp_place {
            let released = release_block(&params, &mut area, temp, calls, order, Ghost(blocks), Ghost(0));
            calls = released.0;
            order = released.1;
        }
        Released { destructor_calls: calls, order, area }
    }
}

} // verus!
