//! What holds of every merge.
//!
//! The laws are stated over what the collector is proved to return
//! (`spec_generate`) and over the groups that a merge is proved to gather.
//! Output is compared row by row: because buckets and groups are kept in
//! the order of their first appearance, runs that agree at all agree on
//! the order of their rows as well, which is more than agreeing on the
//! rows as a multiset.

use crate::chunk::{chunk_typed, ChunkView, ScalarValue, UNBUCKETED};
use crate::collector::{
    bucket_index, spec_dispatch, spec_flatten, spec_generate, spec_serial, spec_serial_run, Bucket,
};
use crate::error::ErrorCode;
use crate::function::AggregateFunction;
use crate::model::{
    chunk_rows, lemma_output_rows_prefix, no_groups, output_rows, Groups, MergeSetup,
};
use crate::partition::{disjoint, groups_wf, join};
use vstd::prelude::*;

verus! {

/// Whether a row of a chunk of `bucket` has the key `key`.
pub open spec fn bucket_has_key<F: AggregateFunction>(
    setup: MergeSetup<F>,
    bucket: Bucket,
    key: Seq<u8>,
) -> bool {
    setup.chunks_have_key(bucket.chunks, bucket.chunks.len() as int, key)
}

/// Whether the buckets part the keys: no key comes in two buckets.
pub open spec fn partitioned<F: AggregateFunction>(
    setup: MergeSetup<F>,
    buckets: Seq<Bucket>,
) -> bool {
    forall|i: int, j: int, key: Seq<u8>|
        0 <= i < j < buckets.len() && #[trigger] bucket_has_key(setup, buckets[i], key)
            ==> !#[trigger] bucket_has_key(setup, buckets[j], key)
}

/// The groups that a worker gathers from the chunks of `bucket`.
pub open spec fn bucket_groups<F: AggregateFunction>(
    setup: MergeSetup<F>,
    bucket: Bucket,
) -> Result<Groups, ErrorCode> {
    setup.merge_chunks(no_groups(), bucket.chunks, bucket.chunks.len() as int)
}

/// The groups of the first `upto` buckets, bucket after bucket.
pub open spec fn joined_groups<F: AggregateFunction>(
    setup: MergeSetup<F>,
    buckets: Seq<Bucket>,
    upto: int,
) -> Groups
    decreases upto,
{
    if upto <= 0 {
        no_groups()
    } else {
        join(
            joined_groups(setup, buckets, upto - 1),
            bucket_groups(setup, buckets[upto - 1])->Ok_0,
        )
    }
}

/// The work of a parallel merge: the chunks of each bucket.
pub open spec fn parallel_work(buckets: Seq<Bucket>) -> Seq<Seq<ChunkView>> {
    Seq::new(buckets.len(), |i: int| buckets[i].chunks)
}

/// Where the keys are parted by bucket and one merge of the first `upto`
/// buckets succeeds, the merge of each of these buckets succeeds as well,
/// and the one merge gathers the groups of the buckets, bucket after
/// bucket.
pub proof fn lemma_serial_groups<F: AggregateFunction>(
    setup: MergeSetup<F>,
    buckets: Seq<Bucket>,
    upto: int,
)
    requires
        partitioned(setup, buckets),
        0 <= upto <= buckets.len(),
        setup.merge_chunks(
            no_groups(),
            spec_flatten(buckets, upto),
            spec_flatten(buckets, upto).len() as int,
        ) is Ok,
    ensures
        forall|i: int|
            0 <= i < upto ==> (#[trigger] bucket_groups(setup, buckets[i])) is Ok && groups_wf(
                bucket_groups(setup, buckets[i])->Ok_0,
            ),
        setup.merge_chunks(
            no_groups(),
            spec_flatten(buckets, upto),
            spec_flatten(buckets, upto).len() as int,
        ) == Ok::<Groups, ErrorCode>(joined_groups(setup, buckets, upto)),
        groups_wf(joined_groups(setup, buckets, upto)),
        forall|key: Seq<u8>|
            #[trigger] joined_groups(setup, buckets, upto).keys.contains(key) ==> exists|i: int|
                0 <= i < upto && #[trigger] bucket_has_key(setup, buckets[i], key),
    decreases upto,
{
    if upto > 0 {
        let front = spec_flatten(buckets, upto - 1);
        let chunks = buckets[upto - 1].chunks;
        let len = chunks.len() as int;
        setup.lemma_merge_chunks_concat(no_groups(), front, chunks, len);
        lemma_serial_groups(setup, buckets, upto - 1);
        let before = joined_groups(setup, buckets, upto - 1);
        assert(join(before, no_groups()).keys =~= before.keys);
        assert(join(before, no_groups()).states =~= before.states);
        assert forall|key: Seq<u8>| #[trigger]
            setup.chunks_have_key(chunks, len, key) implies !before.keys.contains(key) by {
            if before.keys.contains(key) {
                let i = choose|i: int|
                    0 <= i < upto - 1 && #[trigger] bucket_has_key(setup, buckets[i], key);
                assert(bucket_has_key(setup, buckets[upto - 1], key));
            }
        }
        setup.lemma_merge_chunks_apart(before, no_groups(), chunks, len);
        setup.lemma_merge_chunks_wf(before, chunks, len);
        setup.lemma_merge_chunks_wf(no_groups(), chunks, len);
        let after = joined_groups(setup, buckets, upto);
        assert forall|key: Seq<u8>| #[trigger] after.keys.contains(key) implies exists|i: int|
            0 <= i < upto && #[trigger] bucket_has_key(setup, buckets[i], key) by {
            if before.keys.contains(key) {
                let i = choose|i: int|
                    0 <= i < upto - 1 && #[trigger] bucket_has_key(setup, buckets[i], key);
                assert(bucket_has_key(setup, buckets[i], key));
            } else {
                assert(bucket_has_key(setup, buckets[upto - 1], key));
            }
        }
    }
}

/// Where the groups of the first `upto` buckets can be emitted as one
/// chunk, the workers of these buckets emit, between them, the same rows.
pub proof fn lemma_parallel_rows<F: AggregateFunction>(
    setup: MergeSetup<F>,
    buckets: Seq<Bucket>,
    upto: int,
)
    requires
        0 <= upto <= buckets.len(),
        !(setup.function_count() > 0 && setup.params.block().size > setup.params.area_limit()),
        forall|i: int|
            0 <= i < upto ==> (#[trigger] bucket_groups(setup, buckets[i])) is Ok && groups_wf(
                bucket_groups(setup, buckets[i])->Ok_0,
            ),
        groups_wf(joined_groups(setup, buckets, upto)),
        setup.emit(joined_groups(setup, buckets, upto)) is Ok,
    ensures
        setup.workers(parallel_work(buckets), upto) is Ok,
        setup.workers(parallel_work(buckets), upto)->Ok_0.len() == upto,
        output_rows(setup.workers(parallel_work(buckets), upto)->Ok_0, upto) == chunk_rows(
            setup.emit(joined_groups(setup, buckets, upto))->Ok_0,
        ),
    decreases upto,
{
    if upto > 0 {
        let before = joined_groups(setup, buckets, upto - 1);
        let last = bucket_groups(setup, buckets[upto - 1])->Ok_0;
        lemma_joined_wf(setup, buckets, upto);
        setup.lemma_emit_join(before, last);
        lemma_parallel_rows(setup, buckets, upto - 1);
        let gathered = setup.workers(parallel_work(buckets), upto - 1)->Ok_0;
        let emitted = setup.emit(last)->Ok_0;
        assert(parallel_work(buckets)[upto - 1] == buckets[upto - 1].chunks);
        let all = setup.workers(parallel_work(buckets), upto)->Ok_0;
        assert(all =~= gathered + seq![emitted]);
        lemma_output_rows_prefix(all, gathered, upto - 1);
    } else {
        assert(chunk_rows(setup.emit(no_groups())->Ok_0) =~= Seq::<Seq<ScalarValue>>::empty());
    }
}

/// Where the groups of the first `upto` buckets are well-formed, so are
/// those of fewer buckets.
pub proof fn lemma_joined_wf<F: AggregateFunction>(
    setup: MergeSetup<F>,
    buckets: Seq<Bucket>,
    upto: int,
)
    requires
        0 < upto <= buckets.len(),
        groups_wf(joined_groups(setup, buckets, upto)),
        groups_wf(bucket_groups(setup, buckets[upto - 1])->Ok_0),
    ensures
        groups_wf(joined_groups(setup, buckets, upto - 1)),
{
    let before = joined_groups(setup, buckets, upto - 1);
    let last = bucket_groups(setup, buckets[upto - 1])->Ok_0;
    let all = join(before, last);
    assert(before.states.len() == before.keys.len());
    assert forall|i: int, j: int|
        0 <= i < before.keys.len() && 0 <= j < before.keys.len() && i != j implies before.keys[i]
        != before.keys[j] by {
        assert(all.keys[i] == before.keys[i]);
        assert(all.keys[j] == before.keys[j]);
    }
}

/// Partition correctness. Where no key comes in two buckets and the serial
/// run over all chunks succeeds, the parallel run, with one worker per
/// bucket, succeeds as well and returns the same rows in the same order,
/// so also the same rows as a multiset.
pub proof fn law_partition_correctness<F: AggregateFunction>(
    setup: MergeSetup<F>,
    buckets: Seq<Bucket>,
)
    requires
        partitioned(setup, buckets),
        spec_serial_run(setup, buckets) is Ok,
    ensures
        setup.workers(parallel_work(buckets), buckets.len() as int) is Ok,
        ({
            let parallel = setup.workers(parallel_work(buckets), buckets.len() as int)->Ok_0;
            let serial = spec_serial_run(setup, buckets)->Ok_0;
            &&& output_rows(parallel, parallel.len() as int) == output_rows(
                serial,
                serial.len() as int,
            )
            &&& output_rows(parallel, parallel.len() as int).to_multiset() == output_rows(
                serial,
                serial.len() as int,
            ).to_multiset()
        }),
{
    let count = buckets.len() as int;
    lemma_serial_groups(setup, buckets, count);
    lemma_parallel_rows(setup, buckets, count);
    let serial = spec_serial_run(setup, buckets)->Ok_0;
    let emitted = setup.emit(joined_groups(setup, buckets, count))->Ok_0;
    assert(serial =~= seq![emitted]);
    assert(output_rows(serial, 0) =~= Seq::<Seq<ScalarValue>>::empty());
    assert(output_rows(serial, 1) =~= chunk_rows(emitted));
}

/// Sentinel forces serial. Where a chunk came without a bucket, the
/// collector returns what the serial run returns, however many threads it
/// may use.
pub proof fn law_sentinel_forces_serial<F: AggregateFunction>(
    setup: MergeSetup<F>,
    max_threads: usize,
    buckets: Seq<Bucket>,
)
    requires
        bucket_index(buckets, UNBUCKETED) is Some,
    ensures
        spec_serial(max_threads, buckets),
        spec_generate(setup, max_threads, buckets) == spec_serial_run(setup, buckets),
{
    lemma_serial_dispatch(setup, max_threads, buckets);
}

/// A collector that merges serially returns what the serial run returns.
pub proof fn lemma_serial_dispatch<F: AggregateFunction>(
    setup: MergeSetup<F>,
    max_threads: usize,
    buckets: Seq<Bucket>,
)
    requires
        spec_serial(max_threads, buckets),
    ensures
        spec_generate(setup, max_threads, buckets) == spec_serial_run(setup, buckets),
{
    let work = spec_dispatch(max_threads, buckets);
    assert(work.len() == 1);
    assert(work[0] == spec_flatten(buckets, buckets.len() as int));
    assert(setup.workers(work, 0) == Ok::<Seq<ChunkView>, ErrorCode>(Seq::empty()));
    match setup.worker(work[0]) {
        Ok(chunks) => {
            assert(Seq::<ChunkView>::empty() + chunks =~= chunks);
        },
        Err(_) => {},
    }
}

/// A single bucket is merged serially, however many threads there are.
pub proof fn law_single_bucket_is_serial<F: AggregateFunction>(
    setup: MergeSetup<F>,
    max_threads: usize,
    buckets: Seq<Bucket>,
)
    requires
        buckets.len() == 1,
    ensures
        spec_serial(max_threads, buckets),
        spec_generate(setup, max_threads, buckets) == spec_serial_run(setup, buckets),
{
    lemma_serial_dispatch(setup, max_threads, buckets);
}

/// Empty input. A collector that may use more than one thread and has
/// consumed nothing returns no chunk.
pub proof fn law_empty_input<F: AggregateFunction>(setup: MergeSetup<F>, max_threads: usize)
    requires
        max_threads > 1,
    ensures
        spec_generate(setup, max_threads, Seq::<Bucket>::empty()) == Ok::<
            Seq<ChunkView>,
            ErrorCode,
        >(Seq::empty()),
{
    let buckets = Seq::<Bucket>::empty();
    assert(bucket_index(buckets, UNBUCKETED) is None);
    assert(spec_dispatch(max_threads, buckets) =~= Seq::<Seq<ChunkView>>::empty());
}

/// A collector that may use one thread at most and has consumed nothing
/// runs one worker over no chunks. Where that worker succeeds, the
/// collector returns one chunk, and the chunk has no rows.
pub proof fn law_empty_input_on_one_thread<F: AggregateFunction>(
    setup: MergeSetup<F>,
    max_threads: usize,
)
    requires
        max_threads <= 1,
    ensures
        spec_generate(setup, max_threads, Seq::<Bucket>::empty()) == setup.worker(
            Seq::<ChunkView>::empty(),
        ),
        spec_generate(setup, max_threads, Seq::<Bucket>::empty()) matches Ok(chunks)
            ==> chunks.len() == 1 && chunks[0].rows == 0,
{
    let buckets = Seq::<Bucket>::empty();
    lemma_serial_dispatch(setup, max_threads, buckets);
}

/// The cells of the group column of `chunk`, which is its last column.
pub open spec fn group_cells(chunk: ChunkView) -> Seq<ScalarValue> {
    chunk.columns[chunk.columns.len() - 1].rows
}

/// Whether every key of `keys` is a key of the encoding of `setup`.
pub open spec fn keys_valid<F: AggregateFunction>(setup: MergeSetup<F>, keys: Seq<Seq<u8>>) -> bool {
    forall|i: int| 0 <= i < keys.len() ==> setup.method.spec_valid_key(#[trigger] keys[i])
}

/// The keys of the rows of a chunk with typed cells are keys of the
/// encoding.
pub proof fn lemma_chunk_keys_valid<F: AggregateFunction>(
    setup: MergeSetup<F>,
    chunk: ChunkView,
    key: Seq<u8>,
)
    requires
        chunk_typed(chunk),
        setup.function_count() < chunk.columns.len(),
        setup.chunk_has_key(chunk, key),
    ensures
        setup.method.spec_valid_key(key),
{
    let keys = setup.chunk_keys(chunk)->Ok_0;
    let column = chunk.columns[setup.function_count() as int];
    let r = choose|r: int| 0 <= r < keys.len() && keys[r] == key;
    assert(column.rows[r].data_type() == column.storage_type);
    setup.method.lemma_key_round_trip(column.rows[r]);
}

/// What a merge of chunks with typed cells gathers from nothing: each key
/// of the chunks' rows once, and no other key; all of them keys of the
/// encoding.
pub proof fn lemma_gathered_keys<F: AggregateFunction>(
    setup: MergeSetup<F>,
    chunks: Seq<ChunkView>,
)
    requires
        forall|j: int|
            0 <= j < chunks.len() ==> chunk_typed(#[trigger] chunks[j]) && setup.function_count()
                < chunks[j].columns.len(),
        setup.merge_chunks(no_groups(), chunks, chunks.len() as int) is Ok,
    ensures
        ({
            let merged = setup.merge_chunks(no_groups(), chunks, chunks.len() as int)->Ok_0;
            &&& groups_wf(merged)
            &&& keys_valid(setup, merged.keys)
            &&& forall|key: Seq<u8>| #[trigger]
                merged.keys.contains(key) <==> setup.chunks_have_key(
                    chunks,
                    chunks.len() as int,
                    key,
                )
        }),
{
    let merged = setup.merge_chunks(no_groups(), chunks, chunks.len() as int)->Ok_0;
    setup.lemma_merge_chunks_wf(no_groups(), chunks, chunks.len() as int);
    assert forall|i: int| 0 <= i < merged.keys.len() implies setup.method.spec_valid_key(
        #[trigger] merged.keys[i],
    ) by {
        let key = merged.keys[i];
        assert(merged.keys.contains(key));
        let j = choose|j: int|
            0 <= j < chunks.len() && #[trigger] setup.chunk_has_key(chunks[j], key);
        lemma_chunk_keys_valid(setup, chunks[j], key);
    }
}

/// Key-only idempotence. Without aggregate states, a merge that succeeds
/// gathers each key of the rows once and no other key, and emits one chunk
/// with one column, which holds the cell of each key once, in the order
/// in which the keys first appeared.
pub proof fn law_key_only_idempotence<F: AggregateFunction>(
    setup: MergeSetup<F>,
    chunks: Seq<ChunkView>,
)
    requires
        !setup.has_agg,
        forall|j: int|
            0 <= j < chunks.len() ==> chunk_typed(#[trigger] chunks[j]) && setup.function_count()
                < chunks[j].columns.len(),
        setup.merge_chunks(no_groups(), chunks, chunks.len() as int) is Ok,
    ensures
        ({
            let merged = setup.merge_chunks(no_groups(), chunks, chunks.len() as int)->Ok_0;
            &&& merged.keys.no_duplicates()
            &&& forall|key: Seq<u8>| #[trigger]
                merged.keys.contains(key) <==> setup.chunks_have_key(
                    chunks,
                    chunks.len() as int,
                    key,
                )
            &&& setup.merge_and_emit(no_groups(), chunks) matches Ok(chunk) && chunk.columns.len()
                == 1 && chunk.rows == merged.keys.len() && group_cells(chunk)
                == setup.method.spec_group_values(merged.keys) && group_cells(chunk).no_duplicates()
        }),
{
    let merged = setup.merge_chunks(no_groups(), chunks, chunks.len() as int)->Ok_0;
    lemma_gathered_keys(setup, chunks);
    let cells = setup.method.spec_group_values(merged.keys);
    assert forall|a: int, b: int| 0 <= a < cells.len() && 0 <= b < cells.len() && a != b implies cells[a]
        != cells[b] by {
        if cells[a] == cells[b] {
            setup.method.lemma_group_value_injective(merged.keys[a], merged.keys[b]);
        }
    }
}

/// Whether every chunk of `buckets` has typed cells and its key column
/// behind its state columns, as every chunk of a collector has.
pub open spec fn buckets_valid<F: AggregateFunction>(
    setup: MergeSetup<F>,
    buckets: Seq<Bucket>,
) -> bool {
    forall|b: int, c: int|
        0 <= b < buckets.len() && 0 <= c < buckets[b].chunks.len() ==> chunk_typed(
            #[trigger] buckets[b].chunks[c],
        ) && setup.function_count() < buckets[b].chunks[c].columns.len()
}

/// The chunks of the first `upto` buckets, put one behind the other, are
/// valid where the chunks of the buckets are.
pub proof fn lemma_flatten_valid<F: AggregateFunction>(
    setup: MergeSetup<F>,
    buckets: Seq<Bucket>,
    upto: int,
)
    requires
        buckets_valid(setup, buckets),
        0 <= upto <= buckets.len(),
    ensures
        forall|j: int|
            0 <= j < spec_flatten(buckets, upto).len() ==> chunk_typed(
                #[trigger] spec_flatten(buckets, upto)[j],
            ) && setup.function_count() < spec_flatten(buckets, upto)[j].columns.len(),
    decreases upto,
{
    if upto > 0 {
        lemma_flatten_valid(setup, buckets, upto - 1);
        let front = spec_flatten(buckets, upto - 1);
        let all = spec_flatten(buckets, upto);
        assert forall|j: int| 0 <= j < all.len() implies chunk_typed(#[trigger] all[j])
            && setup.function_count() < all[j].columns.len() by {
            if j < front.len() {
                assert(all[j] == front[j]);
            } else {
                assert(all[j] == buckets[upto - 1].chunks[j - front.len()]);
            }
        }
    }
}

/// Key-only idempotence of the collector. Without aggregate states, and
/// where the serial run succeeds and either the keys are parted by bucket
/// or the merge is serial whatever the number of threads, the collector
/// returns one row per key of the rows it consumed: the row of each key
/// once, in the order in which the keys first appeared.
pub proof fn law_key_only_output<F: AggregateFunction>(
    setup: MergeSetup<F>,
    max_threads: usize,
    buckets: Seq<Bucket>,
)
    requires
        !setup.has_agg,
        buckets_valid(setup, buckets),
        partitioned(setup, buckets) || buckets.len() == 1 || bucket_index(buckets, UNBUCKETED) is Some,
        spec_serial_run(setup, buckets) is Ok,
    ensures
        spec_generate(setup, max_threads, buckets) is Ok,
        ({
            let output = spec_generate(setup, max_threads, buckets)->Ok_0;
            let rows = output_rows(output, output.len() as int);
            let all = spec_flatten(buckets, buckets.len() as int);
            let keys = setup.merge_chunks(no_groups(), all, all.len() as int)->Ok_0.keys;
            &&& keys.no_duplicates()
            &&& forall|key: Seq<u8>| #[trigger]
                keys.contains(key) <==> setup.chunks_have_key(all, all.len() as int, key)
            &&& rows.len() == keys.len()
            &&& forall|r: int|
                0 <= r < rows.len() ==> #[trigger] rows[r] == seq![
                    setup.method.spec_group_value(keys[r]),
                ]
            &&& rows.no_duplicates()
        }),
{
    let all = spec_flatten(buckets, buckets.len() as int);
    lemma_flatten_valid(setup, buckets, buckets.len() as int);
    law_key_only_idempotence(setup, all);
    law_thread_count_invariance(setup, max_threads, buckets);
    let keys = setup.merge_chunks(no_groups(), all, all.len() as int)->Ok_0.keys;
    let serial = spec_serial_run(setup, buckets)->Ok_0;
    let emitted = setup.merge_and_emit(no_groups(), all)->Ok_0;
    assert(serial =~= seq![emitted]);
    assert(output_rows(serial, 0) =~= Seq::<Seq<ScalarValue>>::empty());
    assert(output_rows(serial, 1) =~= chunk_rows(emitted));
    let rows = chunk_rows(emitted);
    assert forall|r: int| 0 <= r < rows.len() implies #[trigger] rows[r] == seq![
        setup.method.spec_group_value(keys[r]),
    ] by {
        assert(rows[r] =~= seq![group_cells(emitted)[r]]);
    }
    assert forall|a: int, b: int| 0 <= a < rows.len() && 0 <= b < rows.len() && a != b implies rows[a]
        != rows[b] by {
        assert(rows[a][0] == group_cells(emitted)[a]);
        assert(rows[b][0] == group_cells(emitted)[b]);
    }
}

/// Disjoint workers. Where no key comes in two buckets, the workers of two
/// buckets gather no common key, and the group columns that they emit hold
/// no common cell.
pub proof fn law_disjoint_workers<F: AggregateFunction>(
    setup: MergeSetup<F>,
    buckets: Seq<Bucket>,
    i: int,
    j: int,
)
    requires
        partitioned(setup, buckets),
        buckets_valid(setup, buckets),
        0 <= i < j < buckets.len(),
        setup.worker(buckets[i].chunks) is Ok,
        setup.worker(buckets[j].chunks) is Ok,
    ensures
        disjoint(
            bucket_groups(setup, buckets[i])->Ok_0.keys,
            bucket_groups(setup, buckets[j])->Ok_0.keys,
        ),
        ({
            let first = group_cells(setup.worker(buckets[i].chunks)->Ok_0[0]);
            let second = group_cells(setup.worker(buckets[j].chunks)->Ok_0[0]);
            forall|a: int, b: int|
                0 <= a < first.len() && 0 <= b < second.len() ==> #[trigger] first[a]
                    != #[trigger] second[b]
        }),
{
    let one = bucket_groups(setup, buckets[i])->Ok_0;
    let other = bucket_groups(setup, buckets[j])->Ok_0;
    lemma_gathered_keys(setup, buckets[i].chunks);
    lemma_gathered_keys(setup, buckets[j].chunks);
    assert forall|key: Seq<u8>| #[trigger] one.keys.contains(key) implies !other.keys.contains(
        key,
    ) by {
        assert(bucket_has_key(setup, buckets[i], key));
        if other.keys.contains(key) {
            assert(bucket_has_key(setup, buckets[j], key));
        }
    }
    let first = group_cells(setup.worker(buckets[i].chunks)->Ok_0[0]);
    let second = group_cells(setup.worker(buckets[j].chunks)->Ok_0[0]);
    assert(first == setup.method.spec_group_values(one.keys));
    assert(second == setup.method.spec_group_values(other.keys));
    assert forall|a: int, b: int| 0 <= a < first.len() && 0 <= b < second.len() implies #[trigger] first[a]
        != #[trigger] second[b] by {
        if first[a] == second[b] {
            setup.method.lemma_group_value_injective(one.keys[a], other.keys[b]);
            assert(one.keys.contains(one.keys[a]));
            assert(other.keys.contains(other.keys[b]));
        }
    }
}

/// Thread-count invariance. Where the serial run succeeds and either the
/// keys are parted by bucket or the merge is serial whatever the number of
/// threads, the collector succeeds for every number of threads and returns
/// the rows of the serial run, in the same order.
pub proof fn law_thread_count_invariance<F: AggregateFunction>(
    setup: MergeSetup<F>,
    max_threads: usize,
    buckets: Seq<Bucket>,
)
    requires
        partitioned(setup, buckets) || buckets.len() == 1 || bucket_index(buckets, UNBUCKETED) is Some,
        spec_serial_run(setup, buckets) is Ok,
    ensures
        spec_generate(setup, max_threads, buckets) is Ok,
        ({
            let output = spec_generate(setup, max_threads, buckets)->Ok_0;
            let serial = spec_serial_run(setup, buckets)->Ok_0;
            &&& output_rows(output, output.len() as int) == output_rows(serial, serial.len() as int)
            &&& output_rows(output, output.len() as int).to_multiset() == output_rows(
                serial,
                serial.len() as int,
            ).to_multiset()
        }),
{
    if spec_serial(max_threads, buckets) {
        lemma_serial_dispatch(setup, max_threads, buckets);
    } else if buckets.len() > 1 {
        law_partition_correctness(setup, buckets);
        assert(spec_dispatch(max_threads, buckets) =~= parallel_work(buckets));
    } else {
        assert(buckets =~= Seq::<Bucket>::empty());
        law_empty_input(setup, max_threads);
        let serial = spec_serial_run(setup, buckets)->Ok_0;
        let emitted = setup.emit(no_groups())->Ok_0;
        assert(spec_flatten(buckets, 0) =~= Seq::<ChunkView>::empty());
        assert(serial =~= seq![emitted]);
        assert(chunk_rows(emitted) =~= Seq::<Seq<ScalarValue>>::empty());
        assert(output_rows(serial, 0) =~= Seq::<Seq<ScalarValue>>::empty());
        assert(output_rows(serial, 1) =~= Seq::<Seq<ScalarValue>>::empty());
    }
}

} // verus!
