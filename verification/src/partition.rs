//! Why buckets with disjoint keys can be merged apart.
//!
//! Groups never look at one another: merging a row touches the group of
//! the row's key and no other. So where some groups are already there and
//! chunks come whose keys are all new, the merge goes on as if it had
//! started without groups, and what it gathers is appended to what was
//! there.

use crate::chunk::ChunkView;
use crate::error::ErrorCode;
use crate::function::AggregateFunction;
use crate::model::{chunk_rows, lemma_position, partial_state, position, Groups, MergeSetup};
use vstd::prelude::*;

verus! {

/// Whether `groups` holds each key once, and one list of states per key.
pub open spec fn groups_wf(groups: Groups) -> bool {
    groups.keys.no_duplicates() && groups.states.len() == groups.keys.len()
}

/// The groups of `first` followed by the groups of `second`.
pub open spec fn join(first: Groups, second: Groups) -> Groups {
    Groups { keys: first.keys + second.keys, states: first.states + second.states }
}

/// Whether no key of `first` is a key of `second`.
pub open spec fn disjoint(first: Seq<Seq<u8>>, second: Seq<Seq<u8>>) -> bool {
    forall|key: Seq<u8>| #[trigger] first.contains(key) ==> !second.contains(key)
}

/// Whether a merge on joined groups did what the merge on the second part
/// alone did: where the first succeeded, so did the second, and the first
/// gathered what was there before followed by what the second gathered.
pub open spec fn follows(
    joined: Result<Groups, ErrorCode>,
    first: Groups,
    apart: Result<Groups, ErrorCode>,
) -> bool {
    joined matches Ok(all) ==> apart matches Ok(second) && all == join(first, second)
}

/// What a merge on the second part gives, seen from the joined groups.
pub open spec fn lifted(first: Groups, apart: Result<Groups, ErrorCode>) -> Result<
    Groups,
    ErrorCode,
> {
    match apart {
        Ok(second) => Ok(join(first, second)),
        Err(e) => Err(e),
    }
}

/// Joined groups hold a key where one of the parts holds it.
pub proof fn lemma_join_contains(first: Groups, second: Groups, key: Seq<u8>)
    ensures
        join(first, second).keys.contains(key) <==> first.keys.contains(key)
            || second.keys.contains(key),
{
    let all = join(first, second).keys;
    if first.keys.contains(key) {
        let i = choose|i: int| 0 <= i < first.keys.len() && first.keys[i] == key;
        assert(all[i] == key);
    }
    if second.keys.contains(key) {
        let i = choose|i: int| 0 <= i < second.keys.len() && second.keys[i] == key;
        assert(all[first.keys.len() + i] == key);
    }
    if all.contains(key) {
        let i = choose|i: int| 0 <= i < all.len() && all[i] == key;
        if i < first.keys.len() {
            assert(first.keys[i] == key);
        } else {
            assert(second.keys[i - first.keys.len()] == key);
        }
    }
}

/// Joining well-formed groups without a common key gives well-formed
/// groups, in which the groups of the second part come behind those of
/// the first.
pub proof fn lemma_join_wf(first: Groups, second: Groups)
    requires
        groups_wf(first),
        groups_wf(second),
        disjoint(first.keys, second.keys),
    ensures
        groups_wf(join(first, second)),
        forall|i: int|
            0 <= i < second.keys.len() ==> position(
                join(first, second).keys,
                #[trigger] second.keys[i],
            ) == first.keys.len() + i,
{
    let all = join(first, second).keys;
    assert forall|i: int, j: int| 0 <= i < all.len() && 0 <= j < all.len() && i != j implies all[i]
        != all[j] by {
        if i < first.keys.len() && j >= first.keys.len() {
            assert(first.keys.contains(all[i]));
            assert(second.keys[j - first.keys.len()] == all[j]);
            assert(second.keys.contains(all[j]));
        } else if j < first.keys.len() && i >= first.keys.len() {
            assert(first.keys.contains(all[j]));
            assert(second.keys[i - first.keys.len()] == all[i]);
            assert(second.keys.contains(all[i]));
        }
    }
    assert forall|i: int| 0 <= i < second.keys.len() implies position(
        all,
        #[trigger] second.keys[i],
    ) == first.keys.len() + i by {
        assert(all[first.keys.len() + i] == second.keys[i]);
        lemma_position(all, first.keys.len() + i);
    }
}

impl<F: AggregateFunction> MergeSetup<F> {
    /// Fewer groups need no more room.
    pub proof fn lemma_room(self, fewer: nat, more: nat)
        requires
            fewer <= more,
            self.has_room(more),
        ensures
            self.has_room(fewer),
    {
        let size = self.params.block().size as nat;
        assert((fewer + 2) * size <= (more + 2) * size) by (nonlinear_arith)
            requires
                fewer <= more,
        ;
    }

    /// Looking a key up keeps the groups well-formed, and adds no key but
    /// the one looked up.
    pub proof fn lemma_insert_key_wf(self, groups: Groups, key: Seq<u8>)
        requires
            groups_wf(groups),
            self.insert_key(groups, key) is Ok,
        ensures
            groups_wf(self.insert_key(groups, key)->Ok_0),
            self.insert_key(groups, key)->Ok_0.keys.contains(key),
            forall|other: Seq<u8>|
                #[trigger] self.insert_key(groups, key)->Ok_0.keys.contains(other)
                    <==> groups.keys.contains(other) || other == key,
    {
        let after = self.insert_key(groups, key)->Ok_0;
        if !groups.keys.contains(key) {
            assert(after.keys[groups.keys.len() as int] == key);
            assert forall|other: Seq<u8>| #[trigger]
                after.keys.contains(other) <==> groups.keys.contains(other) || other == key by {
                if groups.keys.contains(other) {
                    let i = choose|i: int| 0 <= i < groups.keys.len() && groups.keys[i] == other;
                    assert(after.keys[i] == other);
                }
                if after.keys.contains(other) {
                    let i = choose|i: int| 0 <= i < after.keys.len() && after.keys[i] == other;
                    if i < groups.keys.len() {
                        assert(groups.keys[i] == other);
                    }
                }
            }
            assert forall|i: int, j: int|
                0 <= i < after.keys.len() && 0 <= j < after.keys.len() && i != j implies after.keys[i]
                != after.keys[j] by {
                if i == groups.keys.len() {
                    assert(groups.keys[j] == after.keys[j]);
                } else if j == groups.keys.len() {
                    assert(groups.keys[i] == after.keys[i]);
                }
            }
        }
    }

    /// A key that the groups in front do not hold is looked up in the
    /// joined groups as it is in the groups behind.
    pub proof fn lemma_insert_key_apart(self, first: Groups, second: Groups, key: Seq<u8>)
        requires
            groups_wf(first),
            groups_wf(second),
            disjoint(first.keys, second.keys),
            !first.keys.contains(key),
        ensures
            follows(
                self.insert_key(join(first, second), key),
                first,
                self.insert_key(second, key),
            ),
    {
        lemma_join_contains(first, second, key);
        let all = join(first, second);
        if self.insert_key(all, key) is Ok {
            if !second.keys.contains(key) {
                self.lemma_room(second.keys.len(), all.keys.len());
                let pushed = self.insert_key(second, key)->Ok_0;
                assert(join(first, pushed).keys =~= all.keys.push(key));
                assert(join(first, pushed).states =~= all.states.push(self.fresh_states()));
            }
        }
    }

    /// Looking keys up keeps the groups well-formed, and adds no key but
    /// those looked up.
    pub proof fn lemma_lookup_wf(self, groups: Groups, keys: Seq<Seq<u8>>, upto: int)
        requires
            groups_wf(groups),
            0 <= upto <= keys.len(),
            self.lookup(groups, keys, upto) is Ok,
        ensures
            groups_wf(self.lookup(groups, keys, upto)->Ok_0),
            forall|other: Seq<u8>|
                #[trigger] self.lookup(groups, keys, upto)->Ok_0.keys.contains(other)
                    <==> groups.keys.contains(other) || keys.subrange(0, upto).contains(other),
        decreases upto,
    {
        let after = self.lookup(groups, keys, upto)->Ok_0;
        if upto > 0 {
            let before = self.lookup(groups, keys, upto - 1)->Ok_0;
            self.lemma_lookup_wf(groups, keys, upto - 1);
            self.lemma_insert_key_wf(before, keys[upto - 1]);
            let shorter = keys.subrange(0, upto - 1);
            let longer = keys.subrange(0, upto);
            assert forall|other: Seq<u8>| #[trigger]
                after.keys.contains(other) <==> groups.keys.contains(other) || longer.contains(
                    other,
                ) by {
                if shorter.contains(other) {
                    let i = choose|i: int| 0 <= i < shorter.len() && shorter[i] == other;
                    assert(longer[i] == other);
                }
                if longer.contains(other) {
                    let i = choose|i: int| 0 <= i < longer.len() && longer[i] == other;
                    if i < upto - 1 {
                        assert(shorter[i] == other);
                    }
                }
                assert(longer[upto - 1] == keys[upto - 1]);
            }
        } else {
            assert(keys.subrange(0, 0) =~= Seq::<Seq<u8>>::empty());
        }
    }

    /// Keys that the groups in front do not hold are looked up in the
    /// joined groups as they are in the groups behind.
    pub proof fn lemma_lookup_apart(
        self,
        first: Groups,
        second: Groups,
        keys: Seq<Seq<u8>>,
        upto: int,
    )
        requires
            groups_wf(first),
            groups_wf(second),
            disjoint(first.keys, second.keys),
            0 <= upto <= keys.len(),
            forall|r: int| 0 <= r < upto ==> !first.keys.contains(#[trigger] keys[r]),
        ensures
            follows(
                self.lookup(join(first, second), keys, upto),
                first,
                self.lookup(second, keys, upto),
            ),
        decreases upto,
    {
        if upto > 0 {
            self.lemma_lookup_apart(first, second, keys, upto - 1);
            if self.lookup(join(first, second), keys, upto) is Ok {
                let before = self.lookup(second, keys, upto - 1)->Ok_0;
                self.lemma_lookup_wf(second, keys, upto - 1);
                assert forall|key: Seq<u8>| #[trigger] first.keys.contains(key) implies !before.keys.contains(
                    key,
                ) by {
                    if before.keys.contains(key) && !second.keys.contains(key) {
                        let prefix = keys.subrange(0, upto - 1);
                        let i = choose|i: int| 0 <= i < prefix.len() && prefix[i] == key;
                        assert(keys[i] == key);
                    }
                }
                self.lemma_insert_key_apart(first, before, keys[upto - 1]);
            }
        }
    }

    /// Merging into a group that is there keeps the groups well-formed and
    /// their keys as they are.
    pub proof fn lemma_merge_cell_wf(self, groups: Groups, group: int, idx: int, bytes: Seq<u8>)
        requires
            groups_wf(groups),
            0 <= group < groups.keys.len(),
            self.merge_cell(groups, group, idx, bytes) is Ok,
        ensures
            groups_wf(self.merge_cell(groups, group, idx, bytes)->Ok_0),
            self.merge_cell(groups, group, idx, bytes)->Ok_0.keys == groups.keys,
    {
    }

    /// Merging a row whose key is there keeps the groups well-formed and
    /// their keys as they are.
    pub proof fn lemma_merge_row_wf(
        self,
        groups: Groups,
        chunk: ChunkView,
        keys: Seq<Seq<u8>>,
        row: int,
        upto: int,
    )
        requires
            groups_wf(groups),
            groups.keys.contains(keys[row]),
            self.merge_row(groups, chunk, keys, row, upto) is Ok,
        ensures
            groups_wf(self.merge_row(groups, chunk, keys, row, upto)->Ok_0),
            self.merge_row(groups, chunk, keys, row, upto)->Ok_0.keys == groups.keys,
        decreases upto,
    {
        if upto > 0 {
            self.lemma_merge_row_wf(groups, chunk, keys, row, upto - 1);
            self.lemma_merge_cell_wf(
                self.merge_row(groups, chunk, keys, row, upto - 1)->Ok_0,
                position(groups.keys, keys[row]),
                upto - 1,
                partial_state(chunk.columns[upto - 1], row),
            );
        }
    }

    /// Merging rows whose keys are there keeps the groups well-formed and
    /// their keys as they are.
    pub proof fn lemma_merge_rows_wf(
        self,
        groups: Groups,
        chunk: ChunkView,
        keys: Seq<Seq<u8>>,
        upto: int,
    )
        requires
            groups_wf(groups),
            0 <= upto <= keys.len(),
            forall|r: int| 0 <= r < upto ==> groups.keys.contains(#[trigger] keys[r]),
            self.merge_rows(groups, chunk, keys, upto) is Ok,
        ensures
            groups_wf(self.merge_rows(groups, chunk, keys, upto)->Ok_0),
            self.merge_rows(groups, chunk, keys, upto)->Ok_0.keys == groups.keys,
        decreases upto,
    {
        if upto > 0 {
            self.lemma_merge_rows_wf(groups, chunk, keys, upto - 1);
            self.lemma_merge_row_wf(
                self.merge_rows(groups, chunk, keys, upto - 1)->Ok_0,
                chunk,
                keys,
                upto - 1,
                self.function_count() as int,
            );
        }
    }

    /// A state of a group behind is merged in the joined groups as it is
    /// in the groups behind.
    pub proof fn lemma_merge_cell_apart(
        self,
        first: Groups,
        second: Groups,
        group: int,
        idx: int,
        bytes: Seq<u8>,
    )
        requires
            groups_wf(first),
            groups_wf(second),
            0 <= group < second.keys.len(),
        ensures
            self.merge_cell(join(first, second), first.keys.len() + group, idx, bytes) == lifted(
                first,
                self.merge_cell(second, group, idx, bytes),
            ),
    {
        let all = join(first, second);
        let at = first.keys.len() + group;
        assert(all.states[at] == second.states[group]);
        if self.merge_cell(second, group, idx, bytes) is Ok {
            let apart = self.merge_cell(second, group, idx, bytes)->Ok_0;
            let joined = self.merge_cell(all, at, idx, bytes)->Ok_0;
            assert(joined.states =~= join(first, apart).states);
        }
    }

    /// A row whose key is behind is merged in the joined groups as it is in
    /// the groups behind.
    pub proof fn lemma_merge_row_apart(
        self,
        first: Groups,
        second: Groups,
        chunk: ChunkView,
        keys: Seq<Seq<u8>>,
        row: int,
        upto: int,
    )
        requires
            groups_wf(first),
            groups_wf(second),
            disjoint(first.keys, second.keys),
            second.keys.contains(keys[row]),
        ensures
            self.merge_row(join(first, second), chunk, keys, row, upto) == lifted(
                first,
                self.merge_row(second, chunk, keys, row, upto),
            ),
        decreases upto,
    {
        if upto > 0 {
            self.lemma_merge_row_apart(first, second, chunk, keys, row, upto - 1);
            if self.merge_row(second, chunk, keys, row, upto - 1) is Ok {
                let before = self.merge_row(second, chunk, keys, row, upto - 1)->Ok_0;
                self.lemma_merge_row_wf(second, chunk, keys, row, upto - 1);
                lemma_join_wf(first, second);
                let group = position(second.keys, keys[row]);
                assert(second.keys[group] == keys[row]);
                self.lemma_merge_cell_apart(
                    first,
                    before,
                    group,
                    upto - 1,
                    partial_state(chunk.columns[upto - 1], row),
                );
            }
        }
    }

    /// Rows whose keys are behind are merged in the joined groups as they
    /// are in the groups behind.
    pub proof fn lemma_merge_rows_apart(
        self,
        first: Groups,
        second: Groups,
        chunk: ChunkView,
        keys: Seq<Seq<u8>>,
        upto: int,
    )
        requires
            groups_wf(first),
            groups_wf(second),
            disjoint(first.keys, second.keys),
            0 <= upto <= keys.len(),
            forall|r: int| 0 <= r < upto ==> second.keys.contains(#[trigger] keys[r]),
        ensures
            self.merge_rows(join(first, second), chunk, keys, upto) == lifted(
                first,
                self.merge_rows(second, chunk, keys, upto),
            ),
        decreases upto,
    {
        if upto > 0 {
            self.lemma_merge_rows_apart(first, second, chunk, keys, upto - 1);
            if self.merge_rows(second, chunk, keys, upto - 1) is Ok {
                let before = self.merge_rows(second, chunk, keys, upto - 1)->Ok_0;
                self.lemma_merge_rows_wf(second, chunk, keys, upto - 1);
                self.lemma_merge_row_apart(
                    first,
                    before,
                    chunk,
                    keys,
                    upto - 1,
                    self.function_count() as int,
                );
            }
        }
    }

    /// Whether a row of `chunk` has the key `key`.
    pub open spec fn chunk_has_key(self, chunk: ChunkView, key: Seq<u8>) -> bool {
        self.chunk_keys(chunk) matches Ok(keys) && keys.contains(key)
    }

    /// Whether a row of one of the first `upto` of `chunks` has the key
    /// `key`.
    pub open spec fn chunks_have_key(self, chunks: Seq<ChunkView>, upto: int, key: Seq<u8>) -> bool {
        exists|j: int| 0 <= j < upto && #[trigger] self.chunk_has_key(chunks[j], key)
    }

    /// Merging a chunk keeps the groups well-formed; afterwards they hold
    /// the keys they held and the keys of the chunk's rows, and no other.
    pub proof fn lemma_merge_chunk_wf(self, groups: Groups, chunk: ChunkView)
        requires
            groups_wf(groups),
            self.merge_chunk(groups, chunk) is Ok,
        ensures
            groups_wf(self.merge_chunk(groups, chunk)->Ok_0),
            forall|key: Seq<u8>|
                #[trigger] self.merge_chunk(groups, chunk)->Ok_0.keys.contains(key)
                    <==> groups.keys.contains(key) || self.chunk_has_key(chunk, key),
    {
        let keys = self.chunk_keys(chunk)->Ok_0;
        let len = keys.len() as int;
        let found = self.lookup(groups, keys, len)->Ok_0;
        self.lemma_lookup_wf(groups, keys, len);
        assert(keys.subrange(0, len) =~= keys);
        if self.has_agg {
            assert forall|r: int| 0 <= r < len implies found.keys.contains(#[trigger] keys[r]) by {
                assert(keys.contains(keys[r]));
            }
            self.lemma_merge_rows_wf(found, chunk, keys, len);
        }
    }

    /// A chunk whose keys the groups in front do not hold is merged into
    /// the joined groups as it is into the groups behind.
    pub proof fn lemma_merge_chunk_apart(self, first: Groups, second: Groups, chunk: ChunkView)
        requires
            groups_wf(first),
            groups_wf(second),
            disjoint(first.keys, second.keys),
            forall|key: Seq<u8>| #[trigger]
                self.chunk_has_key(chunk, key) ==> !first.keys.contains(key),
        ensures
            follows(
                self.merge_chunk(join(first, second), chunk),
                first,
                self.merge_chunk(second, chunk),
            ),
    {
        if self.merge_chunk(join(first, second), chunk) is Ok {
            let keys = self.chunk_keys(chunk)->Ok_0;
            let len = keys.len() as int;
            assert forall|r: int| 0 <= r < len implies !first.keys.contains(#[trigger] keys[r]) by {
                assert(keys.contains(keys[r]));
                assert(self.chunk_has_key(chunk, keys[r]));
            }
            self.lemma_lookup_apart(first, second, keys, len);
            let found = self.lookup(second, keys, len)->Ok_0;
            self.lemma_lookup_wf(second, keys, len);
            assert(keys.subrange(0, len) =~= keys);
            if self.has_agg {
                assert forall|key: Seq<u8>| #[trigger] first.keys.contains(key) implies !found.keys.contains(
                    key,
                ) by {
                    if found.keys.contains(key) && !second.keys.contains(key) {
                        assert(self.chunk_has_key(chunk, key));
                    }
                }
                assert forall|r: int| 0 <= r < len implies found.keys.contains(#[trigger] keys[r]) by {
                    assert(keys.contains(keys[r]));
                }
                self.lemma_merge_rows_apart(first, found, chunk, keys, len);
            }
        }
    }

    /// Merging chunks keeps the groups well-formed; afterwards they hold
    /// the keys they held and the keys of the chunks' rows, and no other.
    pub proof fn lemma_merge_chunks_wf(self, groups: Groups, chunks: Seq<ChunkView>, upto: int)
        requires
            groups_wf(groups),
            0 <= upto <= chunks.len(),
            self.merge_chunks(groups, chunks, upto) is Ok,
        ensures
            groups_wf(self.merge_chunks(groups, chunks, upto)->Ok_0),
            forall|key: Seq<u8>|
                #[trigger] self.merge_chunks(groups, chunks, upto)->Ok_0.keys.contains(key)
                    <==> groups.keys.contains(key) || self.chunks_have_key(chunks, upto, key),
        decreases upto,
    {
        if upto > 0 {
            let before = self.merge_chunks(groups, chunks, upto - 1)->Ok_0;
            let after = self.merge_chunks(groups, chunks, upto)->Ok_0;
            self.lemma_merge_chunks_wf(groups, chunks, upto - 1);
            self.lemma_merge_chunk_wf(before, chunks[upto - 1]);
            assert forall|key: Seq<u8>| #[trigger]
                after.keys.contains(key) <==> groups.keys.contains(key) || self.chunks_have_key(
                    chunks,
                    upto,
                    key,
                ) by {
                if self.chunks_have_key(chunks, upto - 1, key) {
                    let j = choose|j: int|
                        0 <= j < upto - 1 && #[trigger] self.chunk_has_key(chunks[j], key);
                    assert(self.chunk_has_key(chunks[j], key));
                }
                if self.chunks_have_key(chunks, upto, key) {
                    let j = choose|j: int|
                        0 <= j < upto && #[trigger] self.chunk_has_key(chunks[j], key);
                    if j < upto - 1 {
                        assert(self.chunks_have_key(chunks, upto - 1, key));
                    }
                }
                if self.chunk_has_key(chunks[upto - 1], key) {
                    assert(self.chunks_have_key(chunks, upto, key));
                }
            }
        }
    }

    /// Chunks whose keys the groups in front do not hold are merged into
    /// the joined groups as they are into the groups behind.
    pub proof fn lemma_merge_chunks_apart(
        self,
        first: Groups,
        second: Groups,
        chunks: Seq<ChunkView>,
        upto: int,
    )
        requires
            groups_wf(first),
            groups_wf(second),
            disjoint(first.keys, second.keys),
            0 <= upto <= chunks.len(),
            forall|key: Seq<u8>| #[trigger]
                self.chunks_have_key(chunks, upto, key) ==> !first.keys.contains(key),
        ensures
            follows(
                self.merge_chunks(join(first, second), chunks, upto),
                first,
                self.merge_chunks(second, chunks, upto),
            ),
        decreases upto,
    {
        if upto > 0 {
            assert forall|key: Seq<u8>| #[trigger]
                self.chunks_have_key(chunks, upto - 1, key) implies !first.keys.contains(key) by {
                let j = choose|j: int|
                    0 <= j < upto - 1 && #[trigger] self.chunk_has_key(chunks[j], key);
                assert(self.chunks_have_key(chunks, upto, key));
            }
            self.lemma_merge_chunks_apart(first, second, chunks, upto - 1);
            if self.merge_chunks(join(first, second), chunks, upto) is Ok {
                let before = self.merge_chunks(second, chunks, upto - 1)->Ok_0;
                self.lemma_merge_chunks_wf(second, chunks, upto - 1);
                assert forall|key: Seq<u8>| #[trigger] first.keys.contains(key) implies !before.keys.contains(
                    key,
                ) by {
                    if before.keys.contains(key) && !second.keys.contains(key) {
                        let j = choose|j: int|
                            0 <= j < upto - 1 && #[trigger] self.chunk_has_key(chunks[j], key);
                        assert(self.chunks_have_key(chunks, upto, key));
                    }
                }
                assert forall|key: Seq<u8>| #[trigger]
                    self.chunk_has_key(chunks[upto - 1], key) implies !first.keys.contains(key) by {
                    assert(self.chunks_have_key(chunks, upto, key));
                }
                self.lemma_merge_chunk_apart(first, before, chunks[upto - 1]);
            }
        }
    }

    /// A merge of chunks depends on the chunks merged only.
    pub proof fn lemma_merge_chunks_prefix(
        self,
        groups: Groups,
        chunks: Seq<ChunkView>,
        others: Seq<ChunkView>,
        upto: int,
    )
        requires
            0 <= upto <= chunks.len(),
            upto <= others.len(),
            forall|j: int| 0 <= j < upto ==> chunks[j] == others[j],
        ensures
            self.merge_chunks(groups, chunks, upto) == self.merge_chunks(groups, others, upto),
        decreases upto,
    {
        if upto > 0 {
            self.lemma_merge_chunks_prefix(groups, chunks, others, upto - 1);
        }
    }

    /// Merging one list of chunks behind another is merging the second
    /// into what the merge of the first has gathered.
    pub proof fn lemma_merge_chunks_concat(
        self,
        groups: Groups,
        front: Seq<ChunkView>,
        back: Seq<ChunkView>,
        upto: int,
    )
        requires
            0 <= upto <= back.len(),
        ensures
            self.merge_chunks(groups, front + back, front.len() + upto) == match self.merge_chunks(
                groups,
                front,
                front.len() as int,
            ) {
                Ok(merged) => self.merge_chunks(merged, back, upto),
                Err(e) => Err(e),
            },
        decreases upto,
    {
        if upto > 0 {
            self.lemma_merge_chunks_concat(groups, front, back, upto - 1);
            assert((front + back)[front.len() + upto - 1] == back[upto - 1]);
        } else {
            self.lemma_merge_chunks_prefix(groups, front + back, front, front.len() as int);
        }
    }

    /// Whether a group's final values can be given depends on the group
    /// alone.
    pub proof fn lemma_group_error_join(self, first: Groups, second: Groups, group: int, upto: int)
        requires
            first.states.len() == first.keys.len(),
            0 <= group < first.keys.len() + second.states.len(),
        ensures
            self.group_error(join(first, second), group, upto) == if group < first.keys.len() {
                self.group_error(first, group, upto)
            } else {
                self.group_error(second, group - first.keys.len(), upto)
            },
        decreases upto,
    {
        if upto > 0 {
            self.lemma_group_error_join(first, second, group, upto - 1);
        }
    }

    /// Where no final value fails, none fails for any one group, and the
    /// other way round.
    pub proof fn lemma_results_given(self, groups: Groups, upto: int)
        requires
            0 <= upto,
        ensures
            self.results_error(groups, upto) is None <==> forall|group: int|
                0 <= group < upto ==> #[trigger] self.group_error(
                    groups,
                    group,
                    self.function_count() as int,
                ) is None,
        decreases upto,
    {
        if upto > 0 {
            self.lemma_results_given(groups, upto - 1);
        }
    }

    /// Where the final values of a group can all be given, each can.
    pub proof fn lemma_group_given(self, groups: Groups, group: int, upto: int)
        requires
            0 <= upto,
            self.group_error(groups, group, upto) is None,
        ensures
            forall|idx: int| 0 <= idx < upto ==> #[trigger] self.result_cell(groups, group, idx) is Ok,
        decreases upto,
    {
        if upto > 0 {
            self.lemma_group_given(groups, group, upto - 1);
        }
    }

    /// Where joined groups can be emitted, so can each part, and the rows
    /// for the joined groups are the rows for the first part followed by
    /// the rows for the second.
    pub proof fn lemma_emit_join(self, first: Groups, second: Groups)
        requires
            groups_wf(first),
            groups_wf(second),
            self.emit(join(first, second)) is Ok,
        ensures
            self.emit(first) is Ok,
            self.emit(second) is Ok,
            chunk_rows(self.emit(join(first, second))->Ok_0) == chunk_rows(
                self.emit(first)->Ok_0,
            ) + chunk_rows(self.emit(second)->Ok_0),
    {
        let all = join(first, second);
        let count = self.function_count() as int;
        let front = first.keys.len() as int;
        if self.has_agg {
            self.lemma_results_given(all, all.keys.len() as int);
            self.lemma_results_given(first, front);
            self.lemma_results_given(second, second.keys.len() as int);
            assert forall|group: int| 0 <= group < front implies #[trigger] self.group_error(
                first,
                group,
                count,
            ) is None by {
                self.lemma_group_error_join(first, second, group, count);
                assert(self.group_error(all, group, count) is None);
            }
            assert forall|group: int| 0 <= group < second.keys.len() implies #[trigger] self.group_error(
                second,
                group,
                count,
            ) is None by {
                self.lemma_group_error_join(first, second, front + group, count);
                assert(self.group_error(all, front + group, count) is None);
            }
        }
        let joined_rows = chunk_rows(self.emit(all)->Ok_0);
        let first_rows = chunk_rows(self.emit(first)->Ok_0);
        let second_rows = chunk_rows(self.emit(second)->Ok_0);
        assert(joined_rows.len() == first_rows.len() + second_rows.len());
        assert forall|r: int| 0 <= r < joined_rows.len() implies joined_rows[r] == (first_rows
            + second_rows)[r] by {
            if r < front {
                assert(all.keys[r] == first.keys[r]);
                assert(all.states[r] == first.states[r]);
                assert(joined_rows[r] =~= first_rows[r]);
            } else {
                assert(all.keys[r] == second.keys[r - front]);
                assert(all.states[r] == second.states[r - front]);
                assert(joined_rows[r] =~= second_rows[r - front]);
            }
        }
        assert(joined_rows =~= first_rows + second_rows);
    }
}

} // verus!
