use final_aggregator::chunk::{
    AggregateInfo, Chunk, ChunkEntry, ChunkMeta, Column, DataType, Scalar, Value,
};
use final_aggregator::collector::ParallelFinalAggregator;
use final_aggregator::error::{ErrorCode, BAD_KEY_COLUMN, BAD_STATE_BYTES, STATE_OVERFLOW};
use final_aggregator::function::AggregateFunction;
use final_aggregator::method::HashMethod;
use final_aggregator::params::{AggregatorParams, DataField, DataSchema};
use final_aggregator::sum::AggregateSum;
use final_aggregator::wipe::WipeOnDrop;
use std::collections::BTreeMap;
use std::sync::Arc;

fn field(name: &str, data_type: DataType) -> DataField {
    DataField { name: name.to_string(), data_type }
}

fn meta(bucket: isize) -> Option<ChunkMeta> {
    Some(ChunkMeta::Aggregate(AggregateInfo { bucket }))
}

fn key_only_params() -> Arc<AggregatorParams<AggregateSum>> {
    let schema = DataSchema { fields: vec![field("key", DataType::UInt64)] };
    Arc::new(AggregatorParams::try_create(Vec::new(), schema).unwrap())
}

fn sum_params<F: AggregateFunction>(function: F) -> Arc<AggregatorParams<F>> {
    let schema = DataSchema {
        fields: vec![field("sum", DataType::Int64), field("key", DataType::String)],
    };
    Arc::new(AggregatorParams::try_create(vec![function], schema).unwrap())
}

fn key_chunk(keys: &[u64], bucket: Option<isize>) -> Chunk {
    let entries = vec![ChunkEntry {
        value: Value::Column(Column::UInt64(keys.to_vec())),
        data_type: DataType::UInt64,
    }];
    Chunk::new_with_meta(entries, keys.len(), bucket.and_then(meta)).unwrap()
}

fn sum_chunk(keys: &[&str], partials: &[i64], bucket: Option<isize>) -> Chunk {
    let states: Vec<Vec<u8>> = partials.iter().map(|v| AggregateSum::serialize(*v)).collect();
    let keys: Vec<Vec<u8>> = keys.iter().map(|k| k.as_bytes().to_vec()).collect();
    let rows = keys.len();
    let entries = vec![
        ChunkEntry { value: Value::Column(Column::String(states)), data_type: DataType::String },
        ChunkEntry { value: Value::Column(Column::String(keys)), data_type: DataType::String },
    ];
    Chunk::new_with_meta(entries, rows, bucket.and_then(meta)).unwrap()
}

fn u64_keys(chunks: &[Chunk]) -> Vec<u64> {
    let mut keys = Vec::new();
    for chunk in chunks {
        assert_eq!(chunk.num_columns(), 1);
        match &chunk.column(0).value {
            Value::Column(Column::UInt64(values)) => {
                assert_eq!(values.len(), chunk.num_rows());
                keys.extend(values.iter().copied());
            }
            other => panic!("unexpected group column {:?}", other),
        }
    }
    keys
}

fn sum_rows(chunks: &[Chunk]) -> Vec<(String, i64)> {
    let mut rows = Vec::new();
    for chunk in chunks {
        assert_eq!(chunk.num_columns(), 2);
        assert!(chunk.get_meta().is_none());
        assert_eq!(chunk.column(0).data_type, DataType::Int64);
        assert_eq!(chunk.column(1).data_type, DataType::String);
        let sums = match &chunk.column(0).value {
            Value::Column(Column::Int64(values)) => values.clone(),
            other => panic!("unexpected value column {:?}", other),
        };
        let keys = match &chunk.column(1).value {
            Value::Column(Column::String(values)) => values.clone(),
            other => panic!("unexpected group column {:?}", other),
        };
        assert_eq!(sums.len(), chunk.num_rows());
        assert_eq!(keys.len(), chunk.num_rows());
        for (key, sum) in keys.into_iter().zip(sums) {
            rows.push((String::from_utf8(key).unwrap(), sum));
        }
    }
    rows
}

fn sorted<T: Ord>(mut rows: Vec<T>) -> Vec<T> {
    rows.sort();
    rows
}

fn two_bucket_chunks() -> Vec<Chunk> {
    vec![
        sum_chunk(&["a", "a", "b"], &[1, 2, 5], Some(0)),
        sum_chunk(&["c", "c"], &[7, 8], Some(1)),
    ]
}

fn run_sum(max_threads: usize, chunks: Vec<Chunk>) -> Result<Vec<Chunk>, ErrorCode> {
    let mut collector = ParallelFinalAggregator::<true, AggregateSum>::create(
        max_threads,
        HashMethod::Serializer,
        sum_params(AggregateSum::new()),
    )
    .unwrap();
    for chunk in chunks {
        collector.consume(chunk).unwrap();
    }
    collector.generate()
}

#[test]
fn key_only_buckets_emit_their_keys() {
    let mut collector = ParallelFinalAggregator::<false, AggregateSum>::create(
        4,
        HashMethod::KeysU64,
        key_only_params(),
    )
    .unwrap();
    collector.consume(key_chunk(&[1, 2, 2, 3], Some(0))).unwrap();
    collector.consume(key_chunk(&[2, 3, 4], Some(1))).unwrap();
    let output = collector.generate().unwrap();
    // two buckets, no sentinel, four threads: one chunk per bucket
    assert_eq!(output.len(), 2);
    assert_eq!(u64_keys(&output[..1]), vec![1, 2, 3]);
    assert_eq!(u64_keys(&output[1..]), vec![2, 3, 4]);
    let mut keys = u64_keys(&output);
    keys.sort();
    keys.dedup();
    assert_eq!(keys, vec![1, 2, 3, 4]);
}

#[test]
fn key_only_serial_holds_each_key_once() {
    let mut collector = ParallelFinalAggregator::<false, AggregateSum>::create(
        1,
        HashMethod::KeysU64,
        key_only_params(),
    )
    .unwrap();
    collector.consume(key_chunk(&[1, 2, 2, 3], Some(0))).unwrap();
    collector.consume(key_chunk(&[2, 3, 4], Some(1))).unwrap();
    let output = collector.generate().unwrap();
    assert_eq!(output.len(), 1);
    assert_eq!(u64_keys(&output), vec![1, 2, 3, 4]);
}

#[test]
fn sums_of_two_buckets() {
    let output = run_sum(4, two_bucket_chunks()).unwrap();
    assert_eq!(output.len(), 2);
    assert_eq!(
        sum_rows(&output),
        vec![("a".to_string(), 3), ("b".to_string(), 5), ("c".to_string(), 15)]
    );
}

#[test]
fn unbucketed_chunk_forces_one_worker() {
    let mut chunks = two_bucket_chunks();
    chunks.push(sum_chunk(&["a", "c"], &[10, 20], Some(-1)));
    let output = run_sum(4, chunks).unwrap();
    assert_eq!(output.len(), 1);
    assert_eq!(
        sorted(sum_rows(&output)),
        vec![("a".to_string(), 13), ("b".to_string(), 5), ("c".to_string(), 35)]
    );
}

#[test]
fn chunk_without_metadata_counts_as_unbucketed() {
    let mut chunks = two_bucket_chunks();
    chunks.push(sum_chunk(&["a", "c"], &[10, 20], None));
    let output = run_sum(16, chunks).unwrap();
    assert_eq!(output.len(), 1);
    assert_eq!(
        sorted(sum_rows(&output)),
        vec![("a".to_string(), 13), ("b".to_string(), 5), ("c".to_string(), 35)]
    );
}

#[test]
fn single_bucket_is_merged_by_one_worker() {
    let chunks = || {
        vec![
            sum_chunk(&["x", "y", "x"], &[4, 5, 6], Some(7)),
            sum_chunk(&["y", "z"], &[1, -9], Some(7)),
        ]
    };
    let many = run_sum(8, chunks()).unwrap();
    let one = run_sum(1, chunks()).unwrap();
    assert_eq!(many.len(), 1);
    assert_eq!(sum_rows(&many), sum_rows(&one));
    assert_eq!(
        sum_rows(&many),
        vec![("x".to_string(), 10), ("y".to_string(), 6), ("z".to_string(), -9)]
    );
}

#[test]
fn every_state_is_released_once() {
    let mut collector = ParallelFinalAggregator::<true, WipeOnDrop<AggregateSum>>::create(
        4,
        HashMethod::Serializer,
        sum_params(WipeOnDrop::new(AggregateSum::new())),
    )
    .unwrap();
    for bucket in 0..4usize {
        let names: Vec<String> = (0..2500usize).map(|i| format!("k{}", bucket * 2500 + i)).collect();
        let keys: Vec<&str> = names.iter().map(|k| k.as_str()).collect();
        let partials: Vec<i64> = (0..2500).collect();
        collector.consume(sum_chunk(&keys, &partials, Some(bucket as isize))).unwrap();
    }
    let output = collector.generate().unwrap();
    assert_eq!(output.len(), 4);
    assert_eq!(sum_rows(&output).len(), 10_000);
    assert_eq!(collector.dropped_states(), 10_004);
    assert_eq!(collector.allocated_states(), 10_004);
}

#[test]
fn serial_drop_accounting_has_one_scratch_state() {
    let mut collector = ParallelFinalAggregator::<true, WipeOnDrop<AggregateSum>>::create(
        1,
        HashMethod::Serializer,
        sum_params(WipeOnDrop::new(AggregateSum::new())),
    )
    .unwrap();
    collector.consume(sum_chunk(&["a", "b", "a"], &[1, 2, 3], Some(0))).unwrap();
    collector.consume(sum_chunk(&["c"], &[4], Some(1))).unwrap();
    collector.generate().unwrap();
    assert_eq!(collector.dropped_states(), 4);
    assert_eq!(collector.allocated_states(), 4);
}

#[test]
fn functions_without_manual_drop_see_no_destructor_call() {
    let mut collector = ParallelFinalAggregator::<true, AggregateSum>::create(
        4,
        HashMethod::Serializer,
        sum_params(AggregateSum::new()),
    )
    .unwrap();
    for chunk in two_bucket_chunks() {
        collector.consume(chunk).unwrap();
    }
    collector.generate().unwrap();
    assert_eq!(collector.dropped_states(), 0);
    assert_eq!(collector.allocated_states(), 0);
}

#[test]
fn state_column_of_another_type_is_refused() {
    let mut collector = ParallelFinalAggregator::<true, WipeOnDrop<AggregateSum>>::create(
        2,
        HashMethod::Serializer,
        sum_params(WipeOnDrop::new(AggregateSum::new())),
    )
    .unwrap();
    collector.consume(sum_chunk(&["a", "b"], &[1, 2], Some(0))).unwrap();
    let bad = Chunk::new_with_meta(
        vec![
            ChunkEntry { value: Value::Column(Column::Int32(vec![1, 2])), data_type: DataType::Int32 },
            ChunkEntry {
                value: Value::Column(Column::String(vec![b"c".to_vec(), b"d".to_vec()])),
                data_type: DataType::String,
            },
        ],
        2,
        meta(0),
    )
    .unwrap();
    collector.consume(bad).unwrap();
    assert_eq!(collector.generate().err(), Some(ErrorCode::IllegalDataType(DataType::Int32)));
    // the scratch state and the states of a, b, c and d
    assert_eq!(collector.allocated_states(), 5);
    assert_eq!(collector.dropped_states(), collector.allocated_states());
}

#[test]
fn empty_input_with_threads_gives_no_chunk() {
    for threads in [2usize, 4, 16] {
        assert_eq!(run_sum(threads, Vec::new()).unwrap().len(), 0);
        let mut collector = ParallelFinalAggregator::<false, AggregateSum>::create(
            threads,
            HashMethod::KeysU64,
            key_only_params(),
        )
        .unwrap();
        assert_eq!(collector.generate().unwrap().len(), 0);
    }
}

#[test]
fn empty_input_on_one_thread_gives_one_chunk_without_rows() {
    let output = run_sum(1, Vec::new()).unwrap();
    assert_eq!(output.len(), 1);
    assert_eq!(output[0].num_rows(), 0);
    assert_eq!(sum_rows(&output), Vec::new());
    let mut collector =
        ParallelFinalAggregator::<false, AggregateSum>::create(0, HashMethod::KeysU64, key_only_params())
            .unwrap();
    let output = collector.generate().unwrap();
    assert_eq!(output.len(), 1);
    assert_eq!(u64_keys(&output), Vec::<u64>::new());
}

#[test]
fn thread_count_does_not_change_the_rows() {
    let chunks = || {
        vec![
            sum_chunk(&["a", "b", "a"], &[1, 2, 3], Some(3)),
            sum_chunk(&["c", "d"], &[4, 5], Some(9)),
            sum_chunk(&["b", "b"], &[6, 7], Some(3)),
            sum_chunk(&["e"], &[8], Some(0)),
            sum_chunk(&["d", "c", "c"], &[9, 10, 11], Some(9)),
        ]
    };
    let reference = sorted(sum_rows(&run_sum(1, chunks()).unwrap()));
    assert_eq!(
        reference,
        vec![
            ("a".to_string(), 4),
            ("b".to_string(), 15),
            ("c".to_string(), 25),
            ("d".to_string(), 14),
            ("e".to_string(), 8)
        ]
    );
    for threads in [1usize, 2, 4, 16] {
        assert_eq!(sorted(sum_rows(&run_sum(threads, chunks()).unwrap())), reference);
    }
}

#[test]
fn parallel_workers_share_no_key() {
    let output = run_sum(
        4,
        vec![
            sum_chunk(&["a", "b", "a"], &[1, 2, 3], Some(0)),
            sum_chunk(&["c", "d"], &[4, 5], Some(1)),
            sum_chunk(&["e"], &[6], Some(2)),
        ],
    )
    .unwrap();
    assert_eq!(output.len(), 3);
    let mut seen: BTreeMap<String, usize> = BTreeMap::new();
    for (worker, chunk) in output.iter().enumerate() {
        for (key, _) in sum_rows(std::slice::from_ref(chunk)) {
            assert_eq!(seen.insert(key, worker), None);
        }
    }
    assert_eq!(seen.len(), 5);
}

#[test]
fn buckets_are_served_in_order_of_first_appearance() {
    let output = run_sum(
        4,
        vec![
            sum_chunk(&["m"], &[1], Some(5)),
            sum_chunk(&["n"], &[2], Some(2)),
            sum_chunk(&["o"], &[3], Some(5)),
        ],
    )
    .unwrap();
    assert_eq!(output.len(), 2);
    assert_eq!(sum_rows(&output[..1]), vec![("m".to_string(), 1), ("o".to_string(), 3)]);
    assert_eq!(sum_rows(&output[1..]), vec![("n".to_string(), 2)]);
}

#[test]
fn scalar_columns_are_spread_over_the_rows() {
    let entries = vec![
        ChunkEntry {
            value: Value::Scalar(Scalar::String(AggregateSum::serialize(7))),
            data_type: DataType::String,
        },
        ChunkEntry {
            value: Value::Column(Column::String(vec![b"p".to_vec(), b"q".to_vec(), b"p".to_vec()])),
            data_type: DataType::String,
        },
    ];
    let chunk = Chunk::new_with_meta(entries, 3, meta(0)).unwrap();
    let output = run_sum(1, vec![chunk]).unwrap();
    assert_eq!(sum_rows(&output), vec![("p".to_string(), 14), ("q".to_string(), 7)]);
}

#[test]
fn bad_state_bytes_are_a_function_error() {
    let entries = vec![
        ChunkEntry {
            value: Value::Column(Column::String(vec![vec![1, 2, 3]])),
            data_type: DataType::String,
        },
        ChunkEntry { value: Value::Column(Column::String(vec![b"a".to_vec()])), data_type: DataType::String },
    ];
    let chunk = Chunk::new_with_meta(entries, 1, meta(0)).unwrap();
    assert_eq!(run_sum(1, vec![chunk]).err(), Some(ErrorCode::FunctionError(BAD_STATE_BYTES)));
}

#[test]
fn sum_overflow_is_a_function_error() {
    let chunk = sum_chunk(&["a", "a"], &[i64::MAX, 1], Some(0));
    assert_eq!(run_sum(1, vec![chunk]).err(), Some(ErrorCode::FunctionError(STATE_OVERFLOW)));
    let chunk = sum_chunk(&["a", "a"], &[i64::MAX, -1], Some(0));
    assert_eq!(sum_rows(&run_sum(1, vec![chunk]).unwrap()), vec![("a".to_string(), i64::MAX - 1)]);
}

#[test]
fn key_column_of_another_type_is_a_function_error() {
    let mut collector = ParallelFinalAggregator::<false, AggregateSum>::create(
        1,
        HashMethod::Serializer,
        key_only_params(),
    )
    .unwrap();
    collector.consume(key_chunk(&[1, 2], Some(0))).unwrap();
    assert_eq!(collector.generate().err(), Some(ErrorCode::FunctionError(BAD_KEY_COLUMN)));
}

#[test]
fn first_failing_worker_wins() {
    let bad_bytes = Chunk::new_with_meta(
        vec![
            ChunkEntry { value: Value::Column(Column::String(vec![vec![9]])), data_type: DataType::String },
            ChunkEntry {
                value: Value::Column(Column::String(vec![b"z".to_vec()])),
                data_type: DataType::String,
            },
        ],
        1,
        meta(1),
    )
    .unwrap();
    let output = run_sum(
        4,
        vec![
            sum_chunk(&["a"], &[1], Some(0)),
            bad_bytes,
            sum_chunk(&["b", "b"], &[i64::MAX, 1], Some(2)),
        ],
    );
    assert_eq!(output.err(), Some(ErrorCode::FunctionError(BAD_STATE_BYTES)));
}

#[test]
fn arena_limit_gives_allocation_failure() {
    // room for the scratch state and two groups of one 8-byte state each
    let params = |limit: usize| {
        let schema = DataSchema {
            fields: vec![field("sum", DataType::Int64), field("key", DataType::String)],
        };
        Arc::new(
            AggregatorParams::try_create(vec![AggregateSum::new()], schema)
                .unwrap()
                .with_area_limit(limit),
        )
    };
    let run = |limit: usize, keys: &[&str]| {
        let mut collector =
            ParallelFinalAggregator::<true, AggregateSum>::create(1, HashMethod::Serializer, params(limit))
                .unwrap();
        let partials: Vec<i64> = keys.iter().map(|_| 1).collect();
        collector.consume(sum_chunk(keys, &partials, Some(0))).unwrap();
        collector.generate()
    };
    assert_eq!(run(24, &["a", "b", "a", "b"]).map(|chunks| sum_rows(&chunks)).unwrap().len(), 2);
    assert_eq!(run(24, &["a", "b", "c"]).err(), Some(ErrorCode::AllocationFailure));
    assert_eq!(run(31, &["a", "b", "c"]).err(), Some(ErrorCode::AllocationFailure));
    assert_eq!(run(32, &["a", "b", "c"]).unwrap().len(), 1);
    // no room for the scratch state
    assert_eq!(run(7, &["a"]).err(), Some(ErrorCode::AllocationFailure));
}

#[test]
fn many_keys_make_the_table_grow() {
    let names: Vec<String> = (0..5000usize).map(|i| format!("key-{}", i % 1700)).collect();
    let keys: Vec<&str> = names.iter().map(|k| k.as_str()).collect();
    let partials: Vec<i64> = (0..5000).collect();
    let output = run_sum(1, vec![sum_chunk(&keys, &partials, Some(0))]).unwrap();
    let rows = sum_rows(&output);
    assert_eq!(rows.len(), 1700);
    for (position, (key, sum)) in rows.iter().enumerate() {
        assert_eq!(key, &format!("key-{}", position));
        let expected: i64 = (0..5000i64).filter(|i| (*i as usize) % 1700 == position).sum();
        assert_eq!(*sum, expected);
    }
}
