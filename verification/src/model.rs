//! What a merge computes, stated over plain sequences.
//!
//! A merge folds rows into groups. A group is a key and one state per
//! aggregate function; groups are kept in the order in which their keys
//! first appear. Everything here is specification: the aggregators are
//! proved to compute exactly this.

use crate::chunk::{ChunkView, ColumnView, DataType, ScalarValue};
use crate::error::{ErrorCode, BAD_KEY_COLUMN};
use crate::function::AggregateFunction;
use crate::hashtable::HASHTABLE_MAX_ENTRIES;
use crate::method::HashMethod;
use crate::params::AggregatorParams;
use vstd::prelude::*;

verus! {

/// The groups gathered so far.
pub struct Groups {
    /// The keys, in the order of their first appearance.
    pub keys: Seq<Seq<u8>>,
    /// For each key, the state of each aggregate function.
    pub states: Seq<Seq<Seq<u8>>>,
}

/// No groups.
pub open spec fn no_groups() -> Groups {
    Groups { keys: Seq::empty(), states: Seq::empty() }
}

/// The position of `key` among `keys`.
pub open spec fn position(keys: Seq<Seq<u8>>, key: Seq<u8>) -> int {
    choose|i: int| 0 <= i < keys.len() && keys[i] == key
}

/// Among keys that are all different, a key is at one position only.
pub proof fn lemma_position(keys: Seq<Seq<u8>>, i: int)
    requires
        keys.no_duplicates(),
        0 <= i < keys.len(),
    ensures
        position(keys, keys[i]) == i,
{
}

/// A key that is appended does not move the keys before it.
pub proof fn lemma_position_push(keys: Seq<Seq<u8>>, key: Seq<u8>, other: Seq<u8>)
    requires
        keys.no_duplicates(),
        keys.contains(key),
        !keys.contains(other),
    ensures
        position(keys.push(other), key) == position(keys, key),
        0 <= position(keys, key) < keys.len(),
{
    let i = position(keys, key);
    let longer = keys.push(other);
    assert(longer[i] == key);
    let j = position(longer, key);
    if j == keys.len() {
        assert(longer[j] == other);
        assert(keys.contains(other));
    } else {
        assert(keys[j] == key);
    }
}

/// The bytes of the serialized state in row `row` of a state column.
pub open spec fn partial_state(column: ColumnView, row: int) -> Seq<u8> {
    match column.rows[row] {
        ScalarValue::String(bytes) => bytes,
        _ => Seq::empty(),
    }
}

/// The rows of `chunk`: for each row, its cell in each column.
pub open spec fn chunk_rows(chunk: ChunkView) -> Seq<Seq<ScalarValue>> {
    Seq::new(chunk.rows, |r: int| Seq::new(chunk.columns.len(), |c: int| chunk.columns[c].rows[r]))
}

/// The rows of the first `upto` of `chunks`, chunk after chunk.
pub open spec fn output_rows(chunks: Seq<ChunkView>, upto: int) -> Seq<Seq<ScalarValue>>
    decreases upto,
{
    if upto <= 0 {
        Seq::empty()
    } else {
        output_rows(chunks, upto - 1) + chunk_rows(chunks[upto - 1])
    }
}

/// The rows of chunks depend on the chunks looked at only.
pub proof fn lemma_output_rows_prefix(chunks: Seq<ChunkView>, others: Seq<ChunkView>, upto: int)
    requires
        0 <= upto <= chunks.len(),
        upto <= others.len(),
        forall|j: int| 0 <= j < upto ==> chunks[j] == others[j],
    ensures
        output_rows(chunks, upto) == output_rows(others, upto),
    decreases upto,
{
    if upto > 0 {
        lemma_output_rows_prefix(chunks, others, upto - 1);
    }
}

/// How an aggregator is set up: its mode, its key encoding and its
/// configuration.
pub struct MergeSetup<F: AggregateFunction> {
    /// Whether aggregate states are merged, or keys only are gathered.
    pub has_agg: bool,
    pub method: HashMethod,
    pub params: AggregatorParams<F>,
}

impl<F: AggregateFunction> MergeSetup<F> {
    pub open spec fn function_count(self) -> nat {
        self.params.functions().len()
    }

    /// Whether groups have states at all.
    pub open spec fn with_states(self) -> bool {
        self.has_agg && self.function_count() > 0
    }

    /// The states of a group that has just been made.
    pub open spec fn fresh_states(self) -> Seq<Seq<u8>> {
        if self.with_states() {
            self.params.init_states()
        } else {
            Seq::empty()
        }
    }

    /// Whether the state arena has room for the states of one more group
    /// beside those of `groups` groups and the scratch state.
    pub open spec fn has_room(self, groups: nat) -> bool {
        !self.with_states() || (groups + 2) * self.params.block().size <= self.params.area_limit()
    }

    /// The groups after `key` was looked up: a new key makes a new group
    /// with fresh states, unless the hash table or the arena is full.
    pub open spec fn insert_key(self, groups: Groups, key: Seq<u8>) -> Result<Groups, ErrorCode> {
        if groups.keys.contains(key) {
            Ok(groups)
        } else if groups.keys.len() >= HASHTABLE_MAX_ENTRIES || !self.has_room(groups.keys.len()) {
            Err(ErrorCode::AllocationFailure)
        } else {
            Ok(
                Groups {
                    keys: groups.keys.push(key),
                    states: groups.states.push(self.fresh_states()),
                },
            )
        }
    }

    /// The groups after the first `upto` of `keys` were looked up, one
    /// after the other.
    pub open spec fn lookup(self, groups: Groups, keys: Seq<Seq<u8>>, upto: int) -> Result<
        Groups,
        ErrorCode,
    >
        decreases upto,
    {
        if upto <= 0 {
            Ok(groups)
        } else {
            match self.lookup(groups, keys, upto - 1) {
                Ok(before) => self.insert_key(before, keys[upto - 1]),
                Err(e) => Err(e),
            }
        }
    }

    /// A lookup that has failed stays failed, whatever follows.
    pub proof fn lemma_lookup_failed(self, groups: Groups, keys: Seq<Seq<u8>>, upto: int, len: int)
        requires
            upto <= len,
            self.lookup(groups, keys, upto) is Err,
        ensures
            self.lookup(groups, keys, len) == self.lookup(groups, keys, upto),
        decreases len - upto,
    {
        if upto < len {
            self.lemma_lookup_failed(groups, keys, upto, len - 1);
        }
    }

    /// A lookup only appends keys: the keys that were there stay where they
    /// are, all of the first `upto` keys are there afterwards, and no key
    /// is there that was not there before or is not among them.
    pub proof fn lemma_lookup_keys(self, groups: Groups, keys: Seq<Seq<u8>>, upto: int)
        requires
            0 <= upto <= keys.len(),
            self.lookup(groups, keys, upto) is Ok,
        ensures
            groups.keys.len() <= self.lookup(groups, keys, upto)->Ok_0.keys.len(),
            self.lookup(groups, keys, upto)->Ok_0.keys.subrange(0, groups.keys.len() as int)
                == groups.keys,
            forall|r: int|
                0 <= r < upto ==> self.lookup(groups, keys, upto)->Ok_0.keys.contains(
                    #[trigger] keys[r],
                ),
            forall|key: Seq<u8>|
                #[trigger] self.lookup(groups, keys, upto)->Ok_0.keys.contains(key)
                    ==> groups.keys.contains(key) || keys.subrange(0, upto).contains(key),
        decreases upto,
    {
        let after = self.lookup(groups, keys, upto)->Ok_0;
        if upto <= 0 {
            assert(after.keys.subrange(0, groups.keys.len() as int) =~= groups.keys);
        } else {
            let before = self.lookup(groups, keys, upto - 1)->Ok_0;
            self.lemma_lookup_keys(groups, keys, upto - 1);
            let key = keys[upto - 1];
            assert(after.keys.subrange(0, groups.keys.len() as int) =~= before.keys.subrange(
                0,
                groups.keys.len() as int,
            ));
            assert forall|r: int| 0 <= r < upto implies after.keys.contains(#[trigger] keys[r]) by {
                if r < upto - 1 {
                    let i = choose|i: int| 0 <= i < before.keys.len() && before.keys[i] == keys[r];
                    assert(after.keys[i] == keys[r]);
                } else if !before.keys.contains(key) {
                    assert(after.keys[before.keys.len() as int] == key);
                }
            }
            assert forall|k: Seq<u8>| #[trigger] after.keys.contains(k) implies groups.keys.contains(
                k,
            ) || keys.subrange(0, upto).contains(k) by {
                let i = choose|i: int| 0 <= i < after.keys.len() && after.keys[i] == k;
                if i < before.keys.len() {
                    assert(before.keys[i] == k);
                    assert(before.keys.contains(k));
                    if !groups.keys.contains(k) {
                        let prefix = keys.subrange(0, upto - 1);
                        let j = choose|j: int| 0 <= j < prefix.len() && prefix[j] == k;
                        assert(keys.subrange(0, upto)[j] == k);
                    }
                } else {
                    assert(keys.subrange(0, upto)[upto - 1] == k);
                }
            }
        }
    }

    /// The keys of the rows of `chunk`: those of the column behind the
    /// state columns, which has to be of the encoding's key type.
    pub open spec fn chunk_keys(self, chunk: ChunkView) -> Result<Seq<Seq<u8>>, ErrorCode> {
        let column = chunk.columns[self.function_count() as int];
        if column.storage_type == self.method.spec_key_type() {
            Ok(self.method.spec_keys(column.rows))
        } else {
            Err(ErrorCode::FunctionError(BAD_KEY_COLUMN))
        }
    }

    /// The declared type of the first among the first `upto` columns of
    /// `chunk` that does not hold byte strings.
    pub open spec fn bad_state_column(self, chunk: ChunkView, upto: int) -> Option<DataType>
        decreases upto,
    {
        if upto <= 0 {
            None
        } else {
            match self.bad_state_column(chunk, upto - 1) {
                Some(found) => Some(found),
                None => if chunk.columns[upto - 1].storage_type != DataType::String {
                    Some(chunk.columns[upto - 1].data_type)
                } else {
                    None
                },
            }
        }
    }

    /// A state column that is found bad stays the first bad one; where none
    /// is found, all the columns looked at hold byte strings.
    pub proof fn lemma_bad_state_column(self, chunk: ChunkView, upto: int, len: int)
        requires
            0 <= upto <= len,
        ensures
            self.bad_state_column(chunk, upto) is Some ==> self.bad_state_column(chunk, len)
                == self.bad_state_column(chunk, upto),
            self.bad_state_column(chunk, len) is None ==> forall|i: int|
                0 <= i < len ==> (#[trigger] chunk.columns[i]).storage_type == DataType::String,
        decreases len,
    {
        if upto < len {
            self.lemma_bad_state_column(chunk, upto, len - 1);
        } else if len > 0 {
            self.lemma_bad_state_column(chunk, len - 1, len - 1);
        }
    }

    /// The groups after the serialized state `bytes` was merged into the
    /// state of function `idx` in group `group`.
    pub open spec fn merge_cell(self, groups: Groups, group: int, idx: int, bytes: Seq<u8>) -> Result<
        Groups,
        ErrorCode,
    > {
        let function = self.params.functions()[idx];
        match function.spec_deserialize(bytes) {
            Ok(partial) => match function.spec_merge(groups.states[group][idx], partial) {
                Ok(merged) => Ok(
                    Groups {
                        keys: groups.keys,
                        states: groups.states.update(group, groups.states[group].update(idx, merged)),
                    },
                ),
                Err(e) => Err(e),
            },
            Err(e) => Err(e),
        }
    }

    /// The groups after row `row` of `chunk` was merged for the first
    /// `upto` functions.
    pub open spec fn merge_row(
        self,
        groups: Groups,
        chunk: ChunkView,
        keys: Seq<Seq<u8>>,
        row: int,
        upto: int,
    ) -> Result<Groups, ErrorCode>
        decreases upto,
    {
        if upto <= 0 {
            Ok(groups)
        } else {
            match self.merge_row(groups, chunk, keys, row, upto - 1) {
                Ok(before) => self.merge_cell(
                    before,
                    position(groups.keys, keys[row]),
                    upto - 1,
                    partial_state(chunk.columns[upto - 1], row),
                ),
                Err(e) => Err(e),
            }
        }
    }

    /// The groups after the first `upto` rows of `chunk` were merged, row
    /// by row and, within a row, function by function.
    pub open spec fn merge_rows(
        self,
        groups: Groups,
        chunk: ChunkView,
        keys: Seq<Seq<u8>>,
        upto: int,
    ) -> Result<Groups, ErrorCode>
        decreases upto,
    {
        if upto <= 0 {
            Ok(groups)
        } else {
            match self.merge_rows(groups, chunk, keys, upto - 1) {
                Ok(before) => self.merge_row(
                    before,
                    chunk,
                    keys,
                    upto - 1,
                    self.function_count() as int,
                ),
                Err(e) => Err(e),
            }
        }
    }

    /// Merging states changes no key.
    pub proof fn lemma_merge_row_keys(
        self,
        groups: Groups,
        chunk: ChunkView,
        keys: Seq<Seq<u8>>,
        row: int,
        upto: int,
    )
        requires
            self.merge_row(groups, chunk, keys, row, upto) is Ok,
        ensures
            self.merge_row(groups, chunk, keys, row, upto)->Ok_0.keys == groups.keys,
        decreases upto,
    {
        if upto > 0 {
            self.lemma_merge_row_keys(groups, chunk, keys, row, upto - 1);
        }
    }

    /// Merging rows changes no key.
    pub proof fn lemma_merge_rows_keys(
        self,
        groups: Groups,
        chunk: ChunkView,
        keys: Seq<Seq<u8>>,
        upto: int,
    )
        requires
            self.merge_rows(groups, chunk, keys, upto) is Ok,
        ensures
            self.merge_rows(groups, chunk, keys, upto)->Ok_0.keys == groups.keys,
        decreases upto,
    {
        if upto > 0 {
            self.lemma_merge_rows_keys(groups, chunk, keys, upto - 1);
            self.lemma_merge_row_keys(
                self.merge_rows(groups, chunk, keys, upto - 1)->Ok_0,
                chunk,
                keys,
                upto - 1,
                self.function_count() as int,
            );
        }
    }

    /// Without functions, merging rows changes nothing.
    pub proof fn lemma_merge_rows_without_functions(
        self,
        groups: Groups,
        chunk: ChunkView,
        keys: Seq<Seq<u8>>,
        upto: int,
    )
        requires
            self.function_count() == 0,
        ensures
            self.merge_rows(groups, chunk, keys, upto) == Ok::<Groups, ErrorCode>(groups),
        decreases upto,
    {
        if upto > 0 {
            self.lemma_merge_rows_without_functions(groups, chunk, keys, upto - 1);
        }
    }

    /// A row whose merge has failed stays failed.
    pub proof fn lemma_merge_row_failed(
        self,
        groups: Groups,
        chunk: ChunkView,
        keys: Seq<Seq<u8>>,
        row: int,
        upto: int,
        len: int,
    )
        requires
            upto <= len,
            self.merge_row(groups, chunk, keys, row, upto) is Err,
        ensures
            self.merge_row(groups, chunk, keys, row, len) == self.merge_row(
                groups,
                chunk,
                keys,
                row,
                upto,
            ),
        decreases len - upto,
    {
        if upto < len {
            self.lemma_merge_row_failed(groups, chunk, keys, row, upto, len - 1);
        }
    }

    /// A merge of rows that has failed stays failed.
    pub proof fn lemma_merge_rows_failed(
        self,
        groups: Groups,
        chunk: ChunkView,
        keys: Seq<Seq<u8>>,
        upto: int,
        len: int,
    )
        requires
            upto <= len,
            self.merge_rows(groups, chunk, keys, upto) is Err,
        ensures
            self.merge_rows(groups, chunk, keys, len) == self.merge_rows(groups, chunk, keys, upto),
        decreases len - upto,
    {
        if upto < len {
            self.lemma_merge_rows_failed(groups, chunk, keys, upto, len - 1);
        }
    }

    /// A merge of chunks that has failed stays failed.
    pub proof fn lemma_merge_chunks_failed(
        self,
        groups: Groups,
        chunks: Seq<ChunkView>,
        upto: int,
        len: int,
    )
        requires
            upto <= len,
            self.merge_chunks(groups, chunks, upto) is Err,
        ensures
            self.merge_chunks(groups, chunks, len) == self.merge_chunks(groups, chunks, upto),
        decreases len - upto,
    {
        if upto < len {
            self.lemma_merge_chunks_failed(groups, chunks, upto, len - 1);
        }
    }

    /// The groups after `chunk` was merged: its keys are looked up first,
    /// then its state columns are checked, then its rows are merged.
    pub open spec fn merge_chunk(self, groups: Groups, chunk: ChunkView) -> Result<Groups, ErrorCode> {
        match self.chunk_keys(chunk) {
            Ok(keys) => match self.lookup(groups, keys, keys.len() as int) {
                Ok(found) => if !self.has_agg {
                    Ok(found)
                } else {
                    match self.bad_state_column(chunk, self.function_count() as int) {
                        Some(found_type) => Err(ErrorCode::IllegalDataType(found_type)),
                        None => self.merge_rows(found, chunk, keys, keys.len() as int),
                    }
                },
                Err(e) => Err(e),
            },
            Err(e) => Err(e),
        }
    }

    /// The groups after the first `upto` of `chunks` were merged in order.
    pub open spec fn merge_chunks(self, groups: Groups, chunks: Seq<ChunkView>, upto: int) -> Result<
        Groups,
        ErrorCode,
    >
        decreases upto,
    {
        if upto <= 0 {
            Ok(groups)
        } else {
            match self.merge_chunks(groups, chunks, upto - 1) {
                Ok(before) => self.merge_chunk(before, chunks[upto - 1]),
                Err(e) => Err(e),
            }
        }
    }

    /// The error of the first among the first `upto` functions that cannot
    /// name its return type.
    pub open spec fn return_type_error(self, upto: int) -> Option<ErrorCode>
        decreases upto,
    {
        if upto <= 0 {
            None
        } else {
            match self.return_type_error(upto - 1) {
                Some(e) => Some(e),
                None => match self.params.functions()[upto - 1].spec_return_type() {
                    Ok(_) => None,
                    Err(e) => Some(e),
                },
            }
        }
    }

    /// A return type that cannot be named stays the first error.
    pub proof fn lemma_return_type_error(self, upto: int, len: int)
        requires
            upto <= len,
            self.return_type_error(upto) is Some,
        ensures
            self.return_type_error(len) == self.return_type_error(upto),
        decreases len - upto,
    {
        if upto < len {
            self.lemma_return_type_error(upto, len - 1);
        }
    }

    /// The final value of function `idx` for group `group`.
    pub open spec fn result_cell(self, groups: Groups, group: int, idx: int) -> Result<
        ScalarValue,
        ErrorCode,
    > {
        self.params.functions()[idx].spec_merge_result(groups.states[group][idx])
    }

    /// The error of the first among the first `upto` functions that cannot
    /// give its final value for group `group`.
    pub open spec fn group_error(self, groups: Groups, group: int, upto: int) -> Option<ErrorCode>
        decreases upto,
    {
        if upto <= 0 {
            None
        } else {
            match self.group_error(groups, group, upto - 1) {
                Some(e) => Some(e),
                None => match self.result_cell(groups, group, upto - 1) {
                    Ok(_) => None,
                    Err(e) => Some(e),
                },
            }
        }
    }

    /// The error of the first final value that cannot be given, going
    /// through the first `upto` groups in order and, within a group,
    /// through the functions in order.
    pub open spec fn results_error(self, groups: Groups, upto: int) -> Option<ErrorCode>
        decreases upto,
    {
        if upto <= 0 {
            None
        } else {
            match self.results_error(groups, upto - 1) {
                Some(e) => Some(e),
                None => self.group_error(groups, upto - 1, self.function_count() as int),
            }
        }
    }

    /// A final value that cannot be given stays the group's first error.
    pub proof fn lemma_group_error(self, groups: Groups, group: int, upto: int, len: int)
        requires
            upto <= len,
            self.group_error(groups, group, upto) is Some,
        ensures
            self.group_error(groups, group, len) == self.group_error(groups, group, upto),
        decreases len - upto,
    {
        if upto < len {
            self.lemma_group_error(groups, group, upto, len - 1);
        }
    }

    /// A final value that cannot be given stays the first error.
    pub proof fn lemma_results_error(self, groups: Groups, upto: int, len: int)
        requires
            upto <= len,
            self.results_error(groups, upto) is Some,
        ensures
            self.results_error(groups, len) == self.results_error(groups, upto),
        decreases len - upto,
    {
        if upto < len {
            self.lemma_results_error(groups, upto, len - 1);
        }
    }

    /// The output column of function `idx`.
    pub open spec fn result_column(self, groups: Groups, idx: int) -> ColumnView {
        ColumnView {
            data_type: self.params.output_types()[idx],
            storage_type: self.params.functions()[idx].spec_return_type()->Ok_0,
            rows: Seq::new(groups.keys.len(), |group: int| self.result_cell(groups, group, idx)->Ok_0),
        }
    }

    /// The group column, declared with the type of output field `field`.
    pub open spec fn group_column(self, groups: Groups, field: int) -> ColumnView {
        ColumnView {
            data_type: self.params.output_types()[field],
            storage_type: self.method.spec_key_type(),
            rows: self.method.spec_group_values(groups.keys),
        }
    }

    /// The chunk that is emitted for `groups`: one row per group, in the
    /// order of the groups. With states, the columns are the final values
    /// of each function followed by the group column; without, the group
    /// column alone.
    pub open spec fn emit(self, groups: Groups) -> Result<ChunkView, ErrorCode> {
        if !self.has_agg {
            Ok(
                ChunkView {
                    columns: seq![self.group_column(groups, 0)],
                    rows: groups.keys.len(),
                    meta: None,
                },
            )
        } else {
            match self.return_type_error(self.function_count() as int) {
                Some(e) => Err(e),
                None => match self.results_error(groups, groups.keys.len() as int) {
                    Some(e) => Err(e),
                    None => Ok(
                        ChunkView {
                            columns: Seq::new(
                                self.function_count() + 1,
                                |idx: int|
                                    if idx < self.function_count() {
                                        self.result_column(groups, idx)
                                    } else {
                                        self.group_column(groups, idx)
                                    },
                            ),
                            rows: groups.keys.len(),
                            meta: None,
                        },
                    ),
                },
            }
        }
    }

    /// Number of state blocks that an aggregator with `groups` groups
    /// holds: with functions, the scratch block and, where states are
    /// merged, one block per group.
    pub open spec fn blocks(self, groups: nat) -> nat {
        if self.function_count() == 0 {
            0
        } else if self.has_agg {
            groups + 1
        } else {
            1
        }
    }

    /// What one worker returns for the chunks handed to it: a fresh
    /// aggregator, which needs room for its scratch state, merges them and
    /// emits one chunk.
    pub open spec fn worker(self, chunks: Seq<ChunkView>) -> Result<Seq<ChunkView>, ErrorCode> {
        if self.function_count() > 0 && self.params.block().size > self.params.area_limit() {
            Err(ErrorCode::AllocationFailure)
        } else {
            match self.merge_and_emit(no_groups(), chunks) {
                Ok(chunk) => Ok(seq![chunk]),
                Err(e) => Err(e),
            }
        }
    }

    /// What the first `upto` workers return together, one worker per item
    /// of `work`: their chunks in the order of the items, or the error of
    /// the first worker that failed.
    pub open spec fn workers(self, work: Seq<Seq<ChunkView>>, upto: int) -> Result<
        Seq<ChunkView>,
        ErrorCode,
    >
        decreases upto,
    {
        if upto <= 0 {
            Ok(Seq::empty())
        } else {
            match self.workers(work, upto - 1) {
                Ok(before) => match self.worker(work[upto - 1]) {
                    Ok(chunks) => Ok(before + chunks),
                    Err(e) => Err(e),
                },
                Err(e) => Err(e),
            }
        }
    }

    /// Workers that have failed stay failed.
    pub proof fn lemma_workers_failed(self, work: Seq<Seq<ChunkView>>, upto: int, len: int)
        requires
            upto <= len,
            self.workers(work, upto) is Err,
        ensures
            self.workers(work, len) == self.workers(work, upto),
        decreases len - upto,
    {
        if upto < len {
            self.lemma_workers_failed(work, upto, len - 1);
        }
    }

    /// What merging `chunks` into `groups` and emitting the result gives.
    pub open spec fn merge_and_emit(self, groups: Groups, chunks: Seq<ChunkView>) -> Result<
        ChunkView,
        ErrorCode,
    > {
        match self.merge_chunks(groups, chunks, chunks.len() as int) {
            Ok(merged) => self.emit(merged),
            Err(e) => Err(e),
        }
    }
}

/// What a merge leaves behind, whether it succeeds or fails. A merge that
/// fails stops where it fails: what it had done by then stays done.
impl<F: AggregateFunction> MergeSetup<F> {
    /// The groups that the lookup of the first `upto` keys leaves behind.
    pub open spec fn lookup_reached(self, groups: Groups, keys: Seq<Seq<u8>>, upto: int) -> Groups
        decreases upto,
    {
        if upto <= 0 {
            groups
        } else {
            match self.lookup(groups, keys, upto) {
                Ok(after) => after,
                Err(_) => self.lookup_reached(groups, keys, upto - 1),
            }
        }
    }

    /// The groups that the merge of row `row` for the first `upto`
    /// functions leaves behind.
    pub open spec fn merge_row_reached(
        self,
        groups: Groups,
        chunk: ChunkView,
        keys: Seq<Seq<u8>>,
        row: int,
        upto: int,
    ) -> Groups
        decreases upto,
    {
        if upto <= 0 {
            groups
        } else {
            match self.merge_row(groups, chunk, keys, row, upto) {
                Ok(after) => after,
                Err(_) => self.merge_row_reached(groups, chunk, keys, row, upto - 1),
            }
        }
    }

    /// The groups that the merge of the first `upto` rows leaves behind.
    pub open spec fn merge_rows_reached(
        self,
        groups: Groups,
        chunk: ChunkView,
        keys: Seq<Seq<u8>>,
        upto: int,
    ) -> Groups
        decreases upto,
    {
        if upto <= 0 {
            groups
        } else {
            match self.merge_rows(groups, chunk, keys, upto) {
                Ok(after) => after,
                Err(_) => match self.merge_rows(groups, chunk, keys, upto - 1) {
                    Ok(before) => self.merge_row_reached(
                        before,
                        chunk,
                        keys,
                        upto - 1,
                        self.function_count() as int,
                    ),
                    Err(_) => self.merge_rows_reached(groups, chunk, keys, upto - 1),
                },
            }
        }
    }

    /// The groups that the merge of `chunk` leaves behind.
    pub open spec fn merge_chunk_reached(self, groups: Groups, chunk: ChunkView) -> Groups {
        match self.chunk_keys(chunk) {
            Ok(keys) => match self.lookup(groups, keys, keys.len() as int) {
                Ok(found) => if !self.has_agg || self.bad_state_column(
                    chunk,
                    self.function_count() as int,
                ) is Some {
                    found
                } else {
                    self.merge_rows_reached(found, chunk, keys, keys.len() as int)
                },
                Err(_) => self.lookup_reached(groups, keys, keys.len() as int),
            },
            Err(_) => groups,
        }
    }

    /// The groups that the merge of the first `upto` of `chunks` leaves
    /// behind.
    pub open spec fn merge_chunks_reached(
        self,
        groups: Groups,
        chunks: Seq<ChunkView>,
        upto: int,
    ) -> Groups
        decreases upto,
    {
        if upto <= 0 {
            groups
        } else {
            match self.merge_chunks(groups, chunks, upto) {
                Ok(after) => after,
                Err(_) => match self.merge_chunks(groups, chunks, upto - 1) {
                    Ok(before) => self.merge_chunk_reached(before, chunks[upto - 1]),
                    Err(_) => self.merge_chunks_reached(groups, chunks, upto - 1),
                },
            }
        }
    }

    /// A lookup that fails at a key leaves behind what the keys before it
    /// made.
    pub proof fn lemma_lookup_stopped(self, groups: Groups, keys: Seq<Seq<u8>>, upto: int, len: int)
        requires
            0 <= upto < len,
            self.lookup(groups, keys, upto) is Ok,
            self.lookup(groups, keys, upto + 1) is Err,
        ensures
            self.lookup_reached(groups, keys, len) == self.lookup(groups, keys, upto)->Ok_0,
        decreases len - upto,
    {
        if upto + 1 < len {
            self.lemma_lookup_failed(groups, keys, upto + 1, len);
            self.lemma_lookup_stopped(groups, keys, upto, len - 1);
        } else {
            assert(self.lookup_reached(groups, keys, upto) == self.lookup(groups, keys, upto)->Ok_0);
        }
    }

    /// A row whose merge fails at a function leaves behind what the
    /// functions before it made.
    pub proof fn lemma_merge_row_stopped(
        self,
        groups: Groups,
        chunk: ChunkView,
        keys: Seq<Seq<u8>>,
        row: int,
        upto: int,
        len: int,
    )
        requires
            0 <= upto < len,
            self.merge_row(groups, chunk, keys, row, upto) is Ok,
            self.merge_row(groups, chunk, keys, row, upto + 1) is Err,
        ensures
            self.merge_row_reached(groups, chunk, keys, row, len) == self.merge_row(
                groups,
                chunk,
                keys,
                row,
                upto,
            )->Ok_0,
        decreases len - upto,
    {
        if upto + 1 < len {
            self.lemma_merge_row_failed(groups, chunk, keys, row, upto + 1, len);
            self.lemma_merge_row_stopped(groups, chunk, keys, row, upto, len - 1);
        } else {
            assert(self.merge_row_reached(groups, chunk, keys, row, upto) == self.merge_row(
                groups,
                chunk,
                keys,
                row,
                upto,
            )->Ok_0);
        }
    }

    /// A merge of rows that fails in a row leaves behind what that row
    /// leaves behind.
    pub proof fn lemma_merge_rows_stopped(
        self,
        groups: Groups,
        chunk: ChunkView,
        keys: Seq<Seq<u8>>,
        upto: int,
        len: int,
    )
        requires
            0 <= upto < len,
            self.merge_rows(groups, chunk, keys, upto) is Ok,
            self.merge_rows(groups, chunk, keys, upto + 1) is Err,
        ensures
            self.merge_rows_reached(groups, chunk, keys, len) == self.merge_row_reached(
                self.merge_rows(groups, chunk, keys, upto)->Ok_0,
                chunk,
                keys,
                upto,
                self.function_count() as int,
            ),
        decreases len - upto,
    {
        if upto + 1 < len {
            self.lemma_merge_rows_failed(groups, chunk, keys, upto + 1, len);
            self.lemma_merge_rows_failed(groups, chunk, keys, upto + 1, len - 1);
            self.lemma_merge_rows_stopped(groups, chunk, keys, upto, len - 1);
        }
    }

    /// A merge of chunks that fails in a chunk leaves behind what that
    /// chunk leaves behind.
    pub proof fn lemma_merge_chunks_stopped(
        self,
        groups: Groups,
        chunks: Seq<ChunkView>,
        upto: int,
        len: int,
    )
        requires
            0 <= upto < len,
            self.merge_chunks(groups, chunks, upto) is Ok,
            self.merge_chunks(groups, chunks, upto + 1) is Err,
        ensures
            self.merge_chunks_reached(groups, chunks, len) == self.merge_chunk_reached(
                self.merge_chunks(groups, chunks, upto)->Ok_0,
                chunks[upto],
            ),
        decreases len - upto,
    {
        if upto + 1 < len {
            self.lemma_merge_chunks_failed(groups, chunks, upto + 1, len);
            self.lemma_merge_chunks_failed(groups, chunks, upto + 1, len - 1);
            self.lemma_merge_chunks_stopped(groups, chunks, upto, len - 1);
        }
    }
}

} // verus!
