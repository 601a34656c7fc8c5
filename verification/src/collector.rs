//! The collector: sorts the incoming chunks by bucket and, once all have
//! come, merges them, one worker per bucket where the buckets form a clean
//! partition, else one worker for all.
//!
//! Buckets are kept in the order in which their ids first appear, and the
//! chunks of a bucket in the order in which they came. Workers are served
//! in that order, so the output is a function of what was consumed.

use crate::bucket::{spec_saturated, BucketAggregator};
use crate::chunk::{chunk_typed, chunk_views, spec_bucket_of, Chunk, ChunkView, UNBUCKETED};
use crate::error::ErrorCode;
use crate::function::AggregateFunction;
use crate::method::HashMethod;
use crate::model::{no_groups, MergeSetup};
use crate::params::AggregatorParams;
use std::collections::HashMap;
use std::sync::Arc;
use vstd::prelude::*;

verus! {

broadcast use vstd::std_specs::hash::group_hash_axioms;

/// The chunks collected under one bucket id.
pub struct Bucket {
    pub id: isize,
    pub chunks: Seq<ChunkView>,
}

/// The position of the bucket with id `id`, if there is one.
pub open spec fn bucket_index(buckets: Seq<Bucket>, id: isize) -> Option<int> {
    if exists|i: int| 0 <= i < buckets.len() && (#[trigger] buckets[i]).id == id {
        Some(choose|i: int| 0 <= i < buckets.len() && (#[trigger] buckets[i]).id == id)
    } else {
        None
    }
}

/// The buckets after a chunk for bucket `id` came: it joins the bucket with
/// that id, or starts a new bucket behind the others.
pub open spec fn spec_consume(buckets: Seq<Bucket>, id: isize, chunk: ChunkView) -> Seq<Bucket> {
    match bucket_index(buckets, id) {
        Some(i) => buckets.update(i, Bucket { id, chunks: buckets[i].chunks.push(chunk) }),
        None => buckets.push(Bucket { id, chunks: seq![chunk] }),
    }
}

/// The chunks of the first `upto` buckets, bucket after bucket.
pub open spec fn spec_flatten(buckets: Seq<Bucket>, upto: int) -> Seq<ChunkView>
    decreases upto,
{
    if upto <= 0 {
        Seq::empty()
    } else {
        spec_flatten(buckets, upto - 1) + buckets[upto - 1].chunks
    }
}

/// Whether one worker has to merge everything: with one thread at most,
/// with one bucket, or with chunks that belong to no partition.
pub open spec fn spec_serial(max_threads: usize, buckets: Seq<Bucket>) -> bool {
    max_threads <= 1 || buckets.len() == 1 || bucket_index(buckets, UNBUCKETED) is Some
}

/// The work of each worker. A serial merge has one worker, which gets all
/// chunks; a parallel merge has one worker per bucket; without chunks and
/// with more than one thread there is no worker at all.
pub open spec fn spec_dispatch(max_threads: usize, buckets: Seq<Bucket>) -> Seq<Seq<ChunkView>> {
    if spec_serial(max_threads, buckets) {
        seq![spec_flatten(buckets, buckets.len() as int)]
    } else if buckets.len() > 1 {
        Seq::new(buckets.len(), |i: int| buckets[i].chunks)
    } else {
        Seq::empty()
    }
}

/// What a collector that may use `max_threads` threads returns for
/// `buckets`: what the workers return together, in the order of the work.
pub open spec fn spec_generate<F: AggregateFunction>(
    setup: MergeSetup<F>,
    max_threads: usize,
    buckets: Seq<Bucket>,
) -> Result<Seq<ChunkView>, ErrorCode> {
    setup.workers(
        spec_dispatch(max_threads, buckets),
        spec_dispatch(max_threads, buckets).len() as int,
    )
}

/// What one worker returns that merges all chunks of `buckets`, bucket
/// after bucket: the serial run that every other run is measured by.
pub open spec fn spec_serial_run<F: AggregateFunction>(
    setup: MergeSetup<F>,
    buckets: Seq<Bucket>,
) -> Result<Seq<ChunkView>, ErrorCode> {
    setup.worker(spec_flatten(buckets, buckets.len() as int))
}

/// Whether `result` is what `expected` says: the same error, or chunks
/// that hold what the expected chunks hold.
pub open spec fn result_holds(
    result: Result<Vec<Chunk>, ErrorCode>,
    expected: Result<Seq<ChunkView>, ErrorCode>,
) -> bool {
    match expected {
        Ok(views) => result matches Ok(chunks) && chunk_views(chunks@) == views,
        Err(e) => result == Err::<Vec<Chunk>, ErrorCode>(e),
    }
}

/// Another pointer to the value that `pointer` points to. Calls
/// `Arc::clone`, of which the standard library says that it makes a new
/// pointer to the same allocation; the contract says that the new pointer
/// points to the same value.
#[verifier::external_body]
fn share<T>(pointer: &Arc<T>) -> (shared: Arc<T>)
    ensures
        shared == *pointer,
{
    Arc::clone(pointer)
}

/// What one worker hands back.
pub struct WorkerOutput {
    /// The chunks that the worker emitted, or why it failed.
    pub result: Result<Vec<Chunk>, ErrorCode>,
    /// Number of states that the worker held when it was done and that
    /// have to be released one by one.
    pub allocated_states: usize,
    /// Number of destructor calls that the worker made.
    pub dropped_states: usize,
}

/// The work of one worker: merges `chunks` with a fresh bucket aggregator,
/// emits the result and releases the aggregator's states, whether the
/// merge succeeded or not.
pub fn merge_bucket<const HAS_AGG: bool, F: AggregateFunction>(
    method: HashMethod,
    params: Arc<AggregatorParams<F>>,
    chunks: Vec<Chunk>,
) -> (out: WorkerOutput)
    requires
        forall|i: int|
            0 <= i < chunks@.len() ==> params.functions().len() < (#[trigger] chunks@[i])@.columns.len(),
    ensures
        result_holds(
            out.result,
            (MergeSetup { has_agg: HAS_AGG, method, params: *params }).worker(chunk_views(chunks@)),
        ),
        out.allocated_states == out.dropped_states,
        out.dropped_states == spec_saturated(
            spec_states(
                MergeSetup { has_agg: HAS_AGG, method, params: *params },
                chunk_views(chunks@),
            ),
        ),
{
    let mut aggregator = match BucketAggregator::<HAS_AGG, F>::create(method, params) {
        Ok(aggregator) => aggregator,
        Err(e) => {
            return WorkerOutput { result: Err(e), allocated_states: 0, dropped_states: 0 };
        },
    };
    let result = aggregator.merge_chunks(chunks);
    proof {
        aggregator.lemma_wf();
        if result is Ok {
            let output = result->Ok_0;
            assert(chunk_views(output@) =~= seq![output@[0]@]);
        }
    }
    let allocated_states = aggregator.live_states();
    let released = aggregator.release();
    WorkerOutput { result, allocated_states, dropped_states: released.destructor_calls }
}

/// The final aggregator of one query. `HAS_AGG` tells whether aggregate
/// states are merged, or keys only are gathered.
pub struct ParallelFinalAggregator<const HAS_AGG: bool, F: AggregateFunction> {
    method: HashMethod,
    max_threads: usize,
    params: Arc<AggregatorParams<F>>,
    /// The bucket ids, in the order of their first appearance.
    bucket_ids: Vec<isize>,
    /// The chunks of each bucket, in the same order.
    buckets_chunks: Vec<Vec<Chunk>>,
    /// The position of each bucket id.
    positions: HashMap<isize, usize>,
    allocated_states: usize,
    dropped_states: usize,
}

impl<const HAS_AGG: bool, F: AggregateFunction> ParallelFinalAggregator<HAS_AGG, F> {
    /// Mode, key encoding and configuration.
    pub closed spec fn setup(&self) -> MergeSetup<F> {
        MergeSetup { has_agg: HAS_AGG, method: self.method, params: *self.params }
    }

    /// The largest number of worker threads.
    pub closed spec fn threads(&self) -> usize {
        self.max_threads
    }

    /// The buckets collected so far, in the order of their first chunks.
    pub closed spec fn buckets(&self) -> Seq<Bucket> {
        Seq::new(
            self.bucket_ids@.len(),
            |i: int| Bucket { id: self.bucket_ids@[i], chunks: chunk_views(self.buckets_chunks@[i]@) },
        )
    }

    /// Number of states that the workers held when they were done.
    pub closed spec fn allocated(&self) -> usize {
        self.allocated_states
    }

    /// Number of destructor calls that the workers made.
    pub closed spec fn dropped(&self) -> usize {
        self.dropped_states
    }

    /// The collector's invariant.
    pub closed spec fn wf(&self) -> bool {
        &&& self.bucket_ids@.len() == self.buckets_chunks@.len()
        &&& forall|i: int|
            0 <= i < self.bucket_ids@.len() ==> self.positions@.contains_key(
                #[trigger] self.bucket_ids@[i],
            ) && self.positions@[self.bucket_ids@[i]] == i
        &&& forall|id: isize| #[trigger]
            self.positions@.contains_key(id) ==> self.positions@[id] < self.bucket_ids@.len()
                && self.bucket_ids@[self.positions@[id] as int] == id
        &&& forall|i: int, j: int|
            0 <= i < self.buckets_chunks@.len() && 0 <= j < self.buckets_chunks@[i]@.len()
                ==> self.params.functions().len() < (#[trigger] self.buckets_chunks@[i]@[j])@.columns.len()
        &&& self.allocated_states == self.dropped_states
    }

    /// What holds of every collector: no bucket id comes twice, every chunk
    /// has typed cells and its key column behind its state columns, and
    /// every state that a worker held was released.
    pub proof fn lemma_wf(&self)
        requires
            self.wf(),
        ensures
            forall|i: int, j: int|
                0 <= i < j < self.buckets().len() ==> (#[trigger] self.buckets()[i]).id != (
                #[trigger] self.buckets()[j]).id,
            forall|i: int, j: int|
                0 <= i < self.buckets().len() && 0 <= j < self.buckets()[i].chunks.len()
                    ==> chunk_typed(#[trigger] self.buckets()[i].chunks[j])
                    && self.setup().function_count() < self.buckets()[i].chunks[j].columns.len(),
            self.allocated() == self.dropped(),
    {
        assert forall|i: int, j: int|
            0 <= i < self.buckets().len() && 0 <= j < self.buckets()[i].chunks.len() implies chunk_typed(
            #[trigger] self.buckets()[i].chunks[j],
        ) && self.setup().function_count() < self.buckets()[i].chunks[j].columns.len() by {
            let chunk = self.buckets_chunks@[i]@[j];
            chunk.lemma_view_typed();
            assert(self.buckets()[i].chunks[j] == chunk@);
        }
    }

    /// A collector without chunks, for a query that may use `max_threads`
    /// threads.
    pub fn create(max_threads: usize, method: HashMethod, params: Arc<AggregatorParams<F>>) -> (r:
        Result<Self, ErrorCode>)
        ensures
            r matches Ok(collector) && collector.wf() && collector.setup() == (MergeSetup {
                has_agg: HAS_AGG,
                method,
                params: *params,
            }) && collector.threads() == max_threads && collector.buckets() == Seq::<
                Bucket,
            >::empty() && collector.allocated() == 0 && collector.dropped() == 0,
    {
        let collector = ParallelFinalAggregator {
            method,
            max_threads,
            params,
            bucket_ids: Vec::new(),
            buckets_chunks: Vec::new(),
            positions: HashMap::new(),
            allocated_states: 0,
            dropped_states: 0,
        };
        assert(collector.buckets() =~= Seq::<Bucket>::empty());
        Ok(collector)
    }

    /// Number of states that the workers of all merges so far held when
    /// they were done and that had to be released one by one.
    pub fn allocated_states(&self) -> (count: usize)
        ensures
            count == self.allocated(),
    {
        self.allocated_states
    }

    /// Number of destructor calls that the workers of all merges so far
    /// made.
    pub fn dropped_states(&self) -> (count: usize)
        ensures
            count == self.dropped(),
    {
        self.dropped_states
    }

    /// Files `chunk` under the bucket that its metadata names, or under
    /// `UNBUCKETED` where it names none. The chunk has to hold the state
    /// columns and, behind them, the key column.
    pub fn consume(&mut self, chunk: Chunk) -> (r: Result<(), ErrorCode>)
        requires
            old(self).wf(),
            old(self).setup().function_count() < chunk@.columns.len(),
        ensures
            r is Ok,
            final(self).wf(),
            final(self).setup() == old(self).setup(),
            final(self).threads() == old(self).threads(),
            final(self).allocated() == old(self).allocated(),
            final(self).dropped() == old(self).dropped(),
            final(self).buckets() == spec_consume(
                old(self).buckets(),
                spec_bucket_of(chunk@.meta),
                chunk@,
            ),
    {
        let bucket = chunk.bucket();
        let ghost before = self.buckets();
        let ghost view = chunk@;
        let found: Option<usize> = match self.positions.get(&bucket) {
            Some(position) => Some(*position),
            None => None,
        };
        match found {
            Some(position) => {
                proof {
                    assert(before[position as int].id == bucket);
                    assert forall|i: int|
                        0 <= i < before.len() && (#[trigger] before[i]).id == bucket implies i
                        == position by {
                        assert(self.positions@[self.bucket_ids@[i]] == i);
                    }
                    assert(bucket_index(before, bucket) == Some(position as int));
                }
                let ghost chunks_before = self.buckets_chunks@[position as int]@;
                self.buckets_chunks[position].push(chunk);
                proof {
                    assert(chunk_views(self.buckets_chunks@[position as int]@) =~= chunk_views(
                        chunks_before,
                    ).push(view));
                    assert(self.buckets() =~= spec_consume(before, bucket, view));
                }
            },
            None => {
                proof {
                    if bucket_index(before, bucket) is Some {
                        let i = bucket_index(before, bucket)->Some_0;
                        assert(self.positions@.contains_key(self.bucket_ids@[i]));
                    }
                }
                let position = self.bucket_ids.len();
                self.positions.insert(bucket, position);
                self.bucket_ids.push(bucket);
                let mut chunks: Vec<Chunk> = Vec::new();
                chunks.push(chunk);
                self.buckets_chunks.push(chunks);
                proof {
                    assert(chunk_views(self.buckets_chunks@[position as int]@) =~= seq![view]);
                    assert(self.buckets() =~= spec_consume(before, bucket, view));
                }
            },
        }
        Ok(())
    }

    /// Hands out the work of each worker and forgets the chunks. A serial
    /// merge has one worker, which gets all chunks, bucket after bucket; a
    /// parallel merge has one worker per bucket.
    pub fn dispatch(&mut self) -> (work: Vec<Vec<Chunk>>)
        requires
            old(self).wf(),
        ensures
            final(self).wf(),
            final(self).setup() == old(self).setup(),
            final(self).threads() == old(self).threads(),
            final(self).allocated() == old(self).allocated(),
            final(self).dropped() == old(self).dropped(),
            final(self).buckets() == Seq::<Bucket>::empty(),
            work_views(work@) == spec_dispatch(old(self).threads(), old(self).buckets()),
            forall|i: int, j: int|
                0 <= i < work@.len() && 0 <= j < work@[i]@.len() ==> old(
                    self,
                ).setup().function_count() < (#[trigger] work@[i]@[j])@.columns.len(),
    {
        let ghost before = self.buckets();
        let unbucketed = self.positions.contains_key(&UNBUCKETED);
        proof {
            if unbucketed {
                let at = self.positions@[UNBUCKETED] as int;
                assert(before[at].id == UNBUCKETED);
            }
            if bucket_index(before, UNBUCKETED) is Some {
                let at = bucket_index(before, UNBUCKETED)->Some_0;
                assert(self.positions@.contains_key(self.bucket_ids@[at]));
            }
        }
        let serial = self.max_threads <= 1 || self.buckets_chunks.len() == 1 || unbucketed;
        let mut taken: Vec<Vec<Chunk>> = Vec::new();
        core::mem::swap(&mut self.buckets_chunks, &mut taken);
        self.bucket_ids.clear();
        self.positions.clear();
        assert(self.buckets() =~= Seq::<Bucket>::empty());
        if !serial {
            assert(work_views(taken@) =~= spec_dispatch(self.max_threads, before));
            return taken;
        }
        let ghost all = taken@;
        let mut chunks: Vec<Chunk> = Vec::new();
        let mut i: usize = 0;
        while i < taken.len()
            invariant
                i <= taken@.len() == all.len() == before.len(),
                forall|k: int| 0 <= k < all.len() ==> chunk_views((#[trigger] all[k])@) == before[k].chunks,
                forall|k: int| i <= k < all.len() ==> taken@[k] == all[k],
                chunk_views(chunks@) == spec_flatten(before, i as int),
                forall|k: int, j: int|
                    0 <= k < all.len() && 0 <= j < all[k]@.len() ==> self.params.functions().len() < (
                    #[trigger] all[k]@[j])@.columns.len(),
                forall|j: int|
                    0 <= j < chunks@.len() ==> self.params.functions().len() < (
                    #[trigger] chunks@[j])@.columns.len(),
            decreases taken@.len() - i,
        {
            let ghost gathered = chunks@;
            chunks.append(&mut taken[i]);
            proof {
                assert(chunk_views(chunks@) =~= chunk_views(gathered) + chunk_views(all[i as int]@));
                assert forall|j: int| 0 <= j < chunks@.len() implies self.params.functions().len()
                    < (#[trigger] chunks@[j])@.columns.len() by {
                    if j >= gathered.len() {
                        assert(chunks@[j] == all[i as int]@[j - gathered.len()]);
                    }
                }
            }
            i += 1;
        }
        let mut work: Vec<Vec<Chunk>> = Vec::new();
        work.push(chunks);
        assert(work_views(work@) =~= spec_dispatch(self.max_threads, before));
        work
    }

    /// The key encoding.
    pub fn method(&self) -> (method: HashMethod)
        ensures
            method == self.setup().method,
    {
        self.method
    }

    /// The configuration; the pointer is shared with the collector.
    pub fn params(&self) -> (params: Arc<AggregatorParams<F>>)
        ensures
            *params == self.setup().params,
    {
        share(&self.params)
    }

    /// The largest number of worker threads.
    pub fn max_threads(&self) -> (threads: usize)
        ensures
            threads == self.threads(),
    {
        self.max_threads
    }

    /// Puts together what the workers handed back, in the order of the
    /// workers: their chunks, or the error of the first worker that failed,
    /// in which case what the other workers emitted is dropped. Counts the
    /// states that the workers held and released.
    pub fn gather(&mut self, outputs: Vec<WorkerOutput>) -> (r: Result<Vec<Chunk>, ErrorCode>)
        requires
            old(self).wf(),
            forall|k: int|
                0 <= k < outputs@.len() ==> (#[trigger] outputs@[k]).allocated_states
                    == outputs@[k].dropped_states,
        ensures
            final(self).wf(),
            final(self).setup() == old(self).setup(),
            final(self).threads() == old(self).threads(),
            final(self).buckets() == old(self).buckets(),
            final(self).dropped() == spec_saturated(
                old(self).dropped() + spec_dropped_total(outputs@, outputs@.len() as int),
            ),
            result_holds(r, spec_gather(result_views(outputs@), outputs@.len() as int)),
    {
        let ghost handed = outputs@;
        let ghost views = result_views(outputs@);
        let mut outputs = outputs;
        let mut failure: Option<ErrorCode> = None;
        let mut gathered: Vec<Chunk> = Vec::new();
        assert(chunk_views(gathered@) =~= Seq::<ChunkView>::empty());
        let mut i: usize = 0;
        while i < outputs.len()
            invariant
                i <= outputs@.len() == handed.len(),
                views == result_views(handed),
                forall|k: int| i <= k < handed.len() ==> outputs@[k] == handed[k],
                forall|k: int|
                    0 <= k < handed.len() ==> (#[trigger] handed[k]).allocated_states
                        == handed[k].dropped_states,
                self.wf(),
                self.setup() == old(self).setup(),
                self.threads() == old(self).threads(),
                self.buckets() == old(self).buckets(),
                self.dropped_states == spec_saturated(
                    old(self).dropped() + spec_dropped_total(handed, i as int),
                ),
                match spec_gather(views, i as int) {
                    Ok(chunks) => failure is None && chunk_views(gathered@) == chunks,
                    Err(e) => failure == Some(e),
                },
            decreases outputs@.len() - i,
        {
            let mut output = WorkerOutput {
                result: Ok(Vec::new()),
                allocated_states: 0,
                dropped_states: 0,
            };
            core::mem::swap(&mut outputs[i], &mut output);
            assert(output == handed[i as int]);
            self.allocated_states = self.allocated_states.saturating_add(output.allocated_states);
            self.dropped_states = self.dropped_states.saturating_add(output.dropped_states);
            match output.result {
                Ok(mut chunks) => {
                    if failure.is_none() {
                        let ghost before = gathered@;
                        let ghost added = chunks@;
                        gathered.append(&mut chunks);
                        assert(chunk_views(gathered@) =~= chunk_views(before) + chunk_views(added));
                    }
                },
                Err(e) => {
                    if failure.is_none() {
                        failure = Some(e);
                    }
                },
            }
            i += 1;
        }
        match failure {
            Some(e) => Err(e),
            None => Ok(gathered),
        }
    }

    /// Merges everything that was consumed and returns the output chunks:
    /// those of each worker, in the order of the workers, or the error of
    /// the first worker that failed. Every worker runs, and every worker
    /// releases its states, whether its merge succeeded or not. The
    /// collector is empty afterwards.
    pub fn generate(&mut self) -> (r: Result<Vec<Chunk>, ErrorCode>)
        requires
            old(self).wf(),
        ensures
            final(self).wf(),
            final(self).setup() == old(self).setup(),
            final(self).threads() == old(self).threads(),
            final(self).buckets() == Seq::<Bucket>::empty(),
            final(self).allocated() == final(self).dropped(),
            result_holds(
                r,
                spec_generate(old(self).setup(), old(self).threads(), old(self).buckets()),
            ),
            final(self).dropped() == spec_saturated(
                old(self).dropped() + spec_states_total(
                    old(self).setup(),
                    spec_dispatch(old(self).threads(), old(self).buckets()),
                    spec_dispatch(old(self).threads(), old(self).buckets()).len() as int,
                ),
            ),
    {
        let ghost setup = self.setup();
        let ghost plan = spec_dispatch(self.threads(), self.buckets());
        let mut work = self.dispatch();
        let ghost handed = work@;
        let mut outputs: Vec<WorkerOutput> = Vec::new();
        let mut i: usize = 0;
        while i < work.len()
            invariant
                i <= work@.len() == handed.len() == plan.len(),
                self.wf(),
                self.setup() == setup,
                setup == old(self).setup(),
                self.threads() == old(self).threads(),
                self.dropped() == old(self).dropped(),
                self.buckets() == Seq::<Bucket>::empty(),
                plan == spec_dispatch(old(self).threads(), old(self).buckets()),
                work_views(handed) == plan,
                forall|k: int| i <= k < handed.len() ==> work@[k] == handed[k],
                forall|k: int, j: int|
                    0 <= k < handed.len() && 0 <= j < handed[k]@.len()
                        ==> setup.function_count() < (#[trigger] handed[k]@[j])@.columns.len(),
                outputs@.len() == i,
                forall|k: int|
                    0 <= k < i ==> {
                        &&& result_holds((#[trigger] outputs@[k]).result, setup.worker(plan[k]))
                        &&& outputs@[k].allocated_states == outputs@[k].dropped_states
                        &&& outputs@[k].dropped_states == spec_saturated(
                            spec_states(setup, plan[k]),
                        )
                    },
            decreases work@.len() - i,
        {
            let mut chunks: Vec<Chunk> = Vec::new();
            core::mem::swap(&mut work[i], &mut chunks);
            proof {
                assert(chunks == handed[i as int]);
                assert(plan[i as int] == chunk_views(handed[i as int]@));
            }
            let output = merge_bucket::<HAS_AGG, F>(self.method, share(&self.params), chunks);
            outputs.push(output);
            i += 1;
        }
        proof {
            lemma_gather_workers(setup, plan, outputs@, plan.len() as int);
        }
        self.gather(outputs)
    }
}

/// What each item of `work` holds.
pub open spec fn work_views(work: Seq<Vec<Chunk>>) -> Seq<Seq<ChunkView>> {
    Seq::new(work.len(), |i: int| chunk_views(work[i]@))
}

/// What a worker handed back, as a result over what chunks hold.
pub open spec fn result_view(output: WorkerOutput) -> Result<Seq<ChunkView>, ErrorCode> {
    match output.result {
        Ok(chunks) => Ok(chunk_views(chunks@)),
        Err(e) => Err(e),
    }
}

/// What the workers handed back, in order.
pub open spec fn result_views(outputs: Seq<WorkerOutput>) -> Seq<Result<Seq<ChunkView>, ErrorCode>> {
    Seq::new(outputs.len(), |k: int| result_view(outputs[k]))
}

/// The first `upto` results put together: the chunks in the order of the
/// results, or the first error.
pub open spec fn spec_gather(results: Seq<Result<Seq<ChunkView>, ErrorCode>>, upto: int) -> Result<
    Seq<ChunkView>,
    ErrorCode,
>
    decreases upto,
{
    if upto <= 0 {
        Ok(Seq::empty())
    } else {
        match spec_gather(results, upto - 1) {
            Ok(before) => match results[upto - 1] {
                Ok(chunks) => Ok(before + chunks),
                Err(e) => Err(e),
            },
            Err(e) => Err(e),
        }
    }
}

/// Number of destructor calls that the first `upto` workers made.
pub open spec fn spec_dropped_total(outputs: Seq<WorkerOutput>, upto: int) -> int
    decreases upto,
{
    if upto <= 0 {
        0
    } else {
        spec_dropped_total(outputs, upto - 1) + outputs[upto - 1].dropped_states
    }
}

/// Number of states that a worker which merges `chunks` holds in the end,
/// whether its merge succeeds or not, and has to release one by one: one
/// per state block and function that needs it; none where the worker has
/// no room for its scratch state.
pub open spec fn spec_states<F: AggregateFunction>(
    setup: MergeSetup<F>,
    chunks: Seq<ChunkView>,
) -> int {
    if setup.function_count() > 0 && setup.params.block().size > setup.params.area_limit() {
        0
    } else {
        (setup.blocks(
            setup.merge_chunks_reached(no_groups(), chunks, chunks.len() as int).keys.len(),
        ) * setup.params.manual_drops()) as int
    }
}

/// Number of such states of the first `upto` workers together.
pub open spec fn spec_states_total<F: AggregateFunction>(
    setup: MergeSetup<F>,
    work: Seq<Seq<ChunkView>>,
    upto: int,
) -> int
    decreases upto,
{
    if upto <= 0 {
        0
    } else {
        spec_states_total(setup, work, upto - 1) + spec_states(setup, work[upto - 1])
    }
}

/// What workers hand back is, put together, what the workers return
/// together; and the destructor calls they made are, as a counter shows
/// them, the states they held.
pub proof fn lemma_gather_workers<F: AggregateFunction>(
    setup: MergeSetup<F>,
    work: Seq<Seq<ChunkView>>,
    outputs: Seq<WorkerOutput>,
    upto: int,
)
    requires
        0 <= upto <= work.len(),
        upto <= outputs.len(),
        forall|k: int|
            0 <= k < upto ==> {
                &&& result_holds((#[trigger] outputs[k]).result, setup.worker(work[k]))
                &&& outputs[k].dropped_states == spec_saturated(spec_states(setup, work[k]))
            },
    ensures
        spec_gather(result_views(outputs), upto) == setup.workers(work, upto),
        spec_saturated(spec_dropped_total(outputs, upto)) == spec_saturated(
            spec_states_total(setup, work, upto),
        ),
        spec_states_total(setup, work, upto) >= 0,
        spec_dropped_total(outputs, upto) >= 0,
    decreases upto,
{
    if upto > 0 {
        lemma_gather_workers(setup, work, outputs, upto - 1);
        assert(result_holds(outputs[upto - 1].result, setup.worker(work[upto - 1])));
        assert(result_views(outputs)[upto - 1] == setup.worker(work[upto - 1]));
    }
}

} // verus!
