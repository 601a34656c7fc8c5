use final_aggregator::area::{Area, StateAddr, AREA_MAX_BYTES};
use final_aggregator::bucket::BucketAggregator;
use final_aggregator::chunk::{
    AggregateInfo, Chunk, ChunkEntry, ChunkMeta, Column, DataType, Scalar, Value, UNBUCKETED,
};
use final_aggregator::collector::{merge_bucket, ParallelFinalAggregator, WorkerOutput};
use final_aggregator::error::ErrorCode;
use final_aggregator::function::AggregateFunction;
use final_aggregator::hashtable::{bytes_eq, hash_bytes, HashTable, TableEntry};
use final_aggregator::layout::{align_up, layout_states, StateLayout};
use final_aggregator::method::HashMethod;
use final_aggregator::params::{AggregatorParams, DataField, DataSchema};
use final_aggregator::sum::AggregateSum;
use final_aggregator::wipe::{zeros, WipeOnDrop};
use std::sync::Arc;

fn field(name: &str, data_type: DataType) -> DataField {
    DataField { name: name.to_string(), data_type }
}

fn sum_chunk(keys: &[&str], partials: &[i64]) -> Chunk {
    let states: Vec<Vec<u8>> = partials.iter().map(|v| AggregateSum::serialize(*v)).collect();
    let keys: Vec<Vec<u8>> = keys.iter().map(|k| k.as_bytes().to_vec()).collect();
    let rows = keys.len();
    Chunk::new(
        vec![
            ChunkEntry { value: Value::Column(Column::String(states)), data_type: DataType::String },
            ChunkEntry { value: Value::Column(Column::String(keys)), data_type: DataType::String },
        ],
        rows,
    )
    .unwrap()
}

#[test]
fn align_up_rounds_to_the_next_multiple() {
    assert_eq!(align_up(0, 8), Some(0));
    assert_eq!(align_up(1, 8), Some(8));
    assert_eq!(align_up(8, 8), Some(8));
    assert_eq!(align_up(9, 8), Some(16));
    assert_eq!(align_up(13, 1), Some(13));
    assert_eq!(align_up(10, 3), Some(12));
    assert_eq!(align_up(usize::MAX, 2), None);
    assert_eq!(align_up(usize::MAX - 1, 2), Some(usize::MAX - 1));
}

#[test]
fn states_are_laid_out_one_behind_the_other() {
    let layouts = vec![
        StateLayout { size: 1, align: 1 },
        StateLayout { size: 8, align: 8 },
        StateLayout { size: 3, align: 2 },
        StateLayout { size: 4, align: 4 },
    ];
    let (offsets, block) = layout_states(&layouts).unwrap();
    assert_eq!(offsets, vec![0, 8, 16, 20]);
    assert_eq!(block, StateLayout { size: 24, align: 8 });
    let (offsets, block) = layout_states(&Vec::new()).unwrap();
    assert_eq!(offsets, Vec::<usize>::new());
    assert_eq!(block, StateLayout { size: 0, align: 1 });
    assert_eq!(layout_states(&vec![StateLayout { size: usize::MAX, align: 1 }; 2]), None);
    assert_eq!(
        layout_states(&vec![StateLayout { size: usize::MAX, align: 1 }, StateLayout { size: 0, align: 2 }]),
        None
    );
}

#[test]
fn area_hands_out_aligned_blocks_and_keeps_their_bytes() {
    let mut area = Area::create();
    assert_eq!(area.limit(), AREA_MAX_BYTES);
    assert_eq!(area.len(), 0);
    let first = area.allocate(3, 1).unwrap();
    assert_eq!(first.addr(), 0);
    let second = area.allocate(8, 8).unwrap();
    assert_eq!(second.addr(), 8);
    assert_eq!(area.len(), 16);
    assert_eq!(area.load(first, 3), vec![0, 0, 0]);
    area.store(first, &vec![1, 2, 3]);
    area.store(second.next(2), &vec![9, 8]);
    let third = area.allocate(4, 4).unwrap();
    assert_eq!(third.addr(), 16);
    assert_eq!(area.load(first, 3), vec![1, 2, 3]);
    assert_eq!(area.load(second, 8), vec![0, 0, 9, 8, 0, 0, 0, 0]);
    assert_eq!(area.load(StateAddr::new(0), 20), vec![1, 2, 3, 0, 0, 0, 0, 0, 0, 0, 9, 8, 0, 0, 0, 0, 0, 0, 0, 0]);
}

#[test]
fn area_refuses_blocks_beyond_its_limit() {
    let mut area = Area::with_limit(10);
    assert_eq!(area.limit(), 10);
    assert_eq!(area.allocate(4, 4).map(|p| p.addr()), Some(0));
    assert_eq!(area.allocate(4, 4).map(|p| p.addr()), Some(4));
    assert_eq!(area.allocate(4, 4), None);
    assert_eq!(area.len(), 8);
    assert_eq!(area.allocate(2, 1).map(|p| p.addr()), Some(8));
    assert_eq!(area.allocate(1, 1), None);
    assert_eq!(area.allocate(0, 1).map(|p| p.addr()), Some(10));
    assert_eq!(Area::with_limit(usize::MAX).limit(), AREA_MAX_BYTES);
}

#[test]
fn hash_is_fnv_1a() {
    assert_eq!(hash_bytes(&Vec::new()), 0xcbf2_9ce4_8422_2325);
    assert_eq!(hash_bytes(&b"a".to_vec()), 0xaf63_dc4c_8601_ec8c);
    assert_eq!(hash_bytes(&b"foobar".to_vec()), 0x8594_4171_f739_67e8);
    assert!(bytes_eq(&b"abc".to_vec(), &b"abc".to_vec()));
    assert!(!bytes_eq(&b"abc".to_vec(), &b"abd".to_vec()));
    assert!(!bytes_eq(&b"abc".to_vec(), &b"ab".to_vec()));
    assert!(bytes_eq(&Vec::new(), &Vec::new()));
}

#[test]
fn table_keeps_keys_in_insertion_order() {
    let mut table = HashTable::new();
    assert_eq!(table.len(), 0);
    assert_eq!(table.get(&b"x".to_vec()), None);
    for round in 0..3usize {
        for i in 0..1000usize {
            let key = format!("key{}", i).into_bytes();
            let entry = table.insert_and_entry(&key).unwrap();
            assert_eq!(entry, TableEntry { index: i, inserted: round == 0 });
            if round == 0 {
                assert_eq!(table.value(i), 0);
                table.set_value(i, i * 7);
            } else {
                assert_eq!(table.value(i), i * 7);
            }
        }
    }
    assert_eq!(table.len(), 1000);
    for i in 0..1000usize {
        assert_eq!(table.key(i), &format!("key{}", i).into_bytes());
        assert_eq!(table.get(&format!("key{}", i).into_bytes()), Some(i));
    }
    assert_eq!(table.get(&b"key1000".to_vec()), None);
    let empty = table.insert_and_entry(&Vec::new()).unwrap();
    assert_eq!(empty, TableEntry { index: 1000, inserted: true });
}

#[test]
fn chunk_checks_the_length_of_its_columns() {
    let column = |rows: usize| ChunkEntry {
        value: Value::Column(Column::Int32(vec![1; rows])),
        data_type: DataType::Int32,
    };
    let scalar = || ChunkEntry { value: Value::Scalar(Scalar::UInt64(5)), data_type: DataType::UInt64 };
    assert!(Chunk::new(vec![column(3), scalar(), column(3)], 3).is_some());
    assert!(Chunk::new(vec![column(3), column(2)], 3).is_none());
    assert!(Chunk::new(vec![column(3)], 2).is_none());
    assert!(Chunk::new(vec![scalar()], 100).is_some());
    assert!(Chunk::new(Vec::new(), 4).is_some());
}

#[test]
fn chunk_bucket_comes_from_aggregate_metadata() {
    let chunk = |meta| Chunk::new_with_meta(Vec::new(), 0, meta).unwrap();
    assert_eq!(chunk(None).bucket(), -1);
    assert_eq!(UNBUCKETED, -1);
    assert_eq!(chunk(Some(ChunkMeta::Other)).bucket(), -1);
    assert_eq!(chunk(Some(ChunkMeta::Aggregate(AggregateInfo { bucket: 12 }))).bucket(), 12);
    assert_eq!(chunk(Some(ChunkMeta::Aggregate(AggregateInfo { bucket: -1 }))).bucket(), -1);
    assert_eq!(chunk(Some(ChunkMeta::Other)).get_meta(), Some(ChunkMeta::Other));
}

#[test]
fn convert_to_full_spreads_scalars() {
    let chunk = Chunk::new_with_meta(
        vec![
            ChunkEntry { value: Value::Scalar(Scalar::String(b"ab".to_vec())), data_type: DataType::String },
            ChunkEntry { value: Value::Column(Column::Int64(vec![4, 5, 6])), data_type: DataType::Int64 },
            ChunkEntry { value: Value::Scalar(Scalar::Int32(-3)), data_type: DataType::Int64 },
        ],
        3,
        Some(ChunkMeta::Aggregate(AggregateInfo { bucket: 2 })),
    )
    .unwrap();
    let full = chunk.convert_to_full();
    assert_eq!(full.num_rows(), 3);
    assert_eq!(full.num_columns(), 3);
    assert_eq!(full.bucket(), 2);
    match &full.column(0).value {
        Value::Column(Column::String(rows)) => assert_eq!(rows, &vec![b"ab".to_vec(); 3]),
        other => panic!("unexpected column {:?}", other),
    }
    match &full.column(1).value {
        Value::Column(Column::Int64(rows)) => assert_eq!(rows, &vec![4, 5, 6]),
        other => panic!("unexpected column {:?}", other),
    }
    match &full.column(2).value {
        Value::Column(Column::Int32(rows)) => assert_eq!(rows, &vec![-3, -3, -3]),
        other => panic!("unexpected column {:?}", other),
    }
    assert_eq!(full.column(2).data_type, DataType::Int64);
}

#[test]
fn column_push_takes_values_of_its_type_only() {
    let mut column = Column::empty(DataType::UInt64);
    assert!(column.push(Scalar::UInt64(3)));
    assert!(!column.push(Scalar::Int64(3)));
    assert!(!column.push(Scalar::String(Vec::new())));
    assert!(column.push(Scalar::UInt64(4)));
    assert_eq!(column.len(), 2);
    assert_eq!(column.data_type(), DataType::UInt64);
    match column.get(1) {
        Scalar::UInt64(v) => assert_eq!(v, 4),
        other => panic!("unexpected scalar {:?}", other),
    }
    assert!(column.as_string().is_none());
    assert_eq!(Column::String(vec![vec![1]]).as_string(), Some(&vec![vec![1u8]]));
    match Column::repeat(&Scalar::Int32(7), 4) {
        Column::Int32(rows) => assert_eq!(rows, vec![7; 4]),
        other => panic!("unexpected column {:?}", other),
    }
}

#[test]
fn key_encodings_read_their_column_type() {
    let numbers = Column::UInt64(vec![1, 0x0102_0304_0506_0708]);
    let keys = HashMethod::KeysU64.keys_iter_from_column(&numbers).unwrap();
    assert_eq!(keys, vec![vec![1, 0, 0, 0, 0, 0, 0, 0], vec![8, 7, 6, 5, 4, 3, 2, 1]]);
    assert_eq!(
        HashMethod::Serializer.keys_iter_from_column(&numbers),
        Err(ErrorCode::FunctionError(final_aggregator::error::BAD_KEY_COLUMN))
    );
    let strings = Column::String(vec![b"k".to_vec(), Vec::new()]);
    assert_eq!(HashMethod::Serializer.keys_iter_from_column(&strings).unwrap(), vec![b"k".to_vec(), Vec::new()]);
    assert!(HashMethod::KeysU64.keys_iter_from_column(&strings).is_err());
    assert_eq!(HashMethod::KeysU64.key_type(), DataType::UInt64);
    assert_eq!(HashMethod::Serializer.key_type(), DataType::String);
}

#[test]
fn group_columns_are_rebuilt_from_keys() {
    let mut builder = HashMethod::KeysU64.group_columns_builder(2);
    builder.append_value(&vec![8, 7, 6, 5, 4, 3, 2, 1]);
    builder.append_value(&vec![1, 0, 0, 0, 0, 0, 0, 0]);
    match &builder.finish()[..] {
        [Column::UInt64(rows)] => assert_eq!(rows, &vec![0x0102_0304_0506_0708, 1]),
        other => panic!("unexpected columns {:?}", other),
    }
    let mut builder = HashMethod::Serializer.group_columns_builder(0);
    builder.append_value(&b"left".to_vec());
    match &builder.finish()[..] {
        [Column::String(rows)] => assert_eq!(rows, &vec![b"left".to_vec()]),
        other => panic!("unexpected columns {:?}", other),
    }
}

#[test]
fn sum_states_are_eight_bytes_least_significant_first() {
    assert_eq!(AggregateSum::serialize(1), vec![1, 0, 0, 0, 0, 0, 0, 0]);
    assert_eq!(AggregateSum::serialize(-2), vec![0xfe, 0xff, 0xff, 0xff, 0xff, 0xff, 0xff, 0xff]);
    assert_eq!(AggregateSum::value_of(&vec![0, 1, 0, 0, 0, 0, 0, 0]), 256);
    assert_eq!(AggregateSum::value_of(&AggregateSum::serialize(i64::MIN)), i64::MIN);
    let sum = AggregateSum::new();
    assert_eq!(sum.state_layout(), StateLayout { size: 8, align: 8 });
    assert_eq!(sum.return_type(), Ok(DataType::Int64));
    assert!(!sum.need_manual_drop_state());
    let mut area = Area::create();
    let state = area.allocate(8, 8).unwrap();
    let other = area.allocate(8, 8).unwrap();
    area.store(state, &vec![0xaa; 8]);
    sum.init_state(&mut area, state);
    assert_eq!(area.load(state, 8), vec![0; 8]);
    sum.deserialize(&mut area, state, &AggregateSum::serialize(40)).unwrap();
    sum.deserialize(&mut area, other, &AggregateSum::serialize(2)).unwrap();
    sum.merge(&mut area, state, other).unwrap();
    assert_eq!(area.load(state, 8), AggregateSum::serialize(42));
    assert_eq!(area.load(other, 8), AggregateSum::serialize(2));
    let mut column = Column::empty(DataType::Int64);
    sum.merge_result(&area, state, &mut column).unwrap();
    match column {
        Column::Int64(rows) => assert_eq!(rows, vec![42]),
        other => panic!("unexpected column {:?}", other),
    }
    assert!(sum.deserialize(&mut area, state, &vec![1, 2]).is_err());
    assert_eq!(area.load(state, 8), AggregateSum::serialize(42));
}

#[test]
fn wipe_on_drop_zeroes_the_state_it_releases() {
    let function = WipeOnDrop::new(AggregateSum::new());
    assert!(function.need_manual_drop_state());
    assert_eq!(function.state_layout(), StateLayout { size: 8, align: 8 });
    assert_eq!(zeros(3), vec![0, 0, 0]);
    let mut area = Area::create();
    let state = area.allocate(8, 8).unwrap();
    let other = area.allocate(8, 8).unwrap();
    function.deserialize(&mut area, state, &AggregateSum::serialize(5)).unwrap();
    function.deserialize(&mut area, other, &AggregateSum::serialize(6)).unwrap();
    function.drop_state(&mut area, state);
    assert_eq!(area.load(state, 8), vec![0; 8]);
    assert_eq!(area.load(other, 8), AggregateSum::serialize(6));
}

#[test]
fn params_place_the_states_and_check_the_schema() {
    let two = |fields: Vec<DataField>| {
        AggregatorParams::try_create(vec![AggregateSum::new(), AggregateSum::new()], DataSchema { fields })
    };
    let params = two(vec![
        field("a", DataType::Int64),
        field("b", DataType::Int64),
        field("k", DataType::String),
    ])
    .unwrap();
    assert_eq!(params.offsets_aggregate_states(), &vec![0, 8]);
    assert_eq!(params.state_block(), StateLayout { size: 16, align: 8 });
    assert_eq!(params.manual_drop_count(), 0);
    assert_eq!(params.max_area_bytes(), AREA_MAX_BYTES);
    assert_eq!(params.aggregate_functions().len(), 2);
    assert_eq!(params.output_schema().fields.len(), 3);
    assert!(two(vec![field("a", DataType::Int64), field("k", DataType::String)]).is_none());
    assert!(two(Vec::new()).is_none());
    let limited = params.with_area_limit(100);
    assert_eq!(limited.max_area_bytes(), 100);
    let mut area = Area::create();
    area.allocate(3, 1).unwrap();
    let base = limited.alloc_layout(&mut area).unwrap().unwrap();
    assert_eq!(base.addr(), 8);
    assert_eq!(area.len(), 24);
    let none = AggregatorParams::<AggregateSum>::try_create(
        Vec::new(),
        DataSchema { fields: vec![field("k", DataType::String)] },
    )
    .unwrap();
    assert_eq!(none.alloc_layout(&mut area), Ok(None));
    let wiped = AggregatorParams::try_create(
        vec![WipeOnDrop::new(AggregateSum::new())],
        DataSchema { fields: vec![field("a", DataType::Int64), field("k", DataType::String)] },
    )
    .unwrap();
    assert_eq!(wiped.manual_drop_count(), 1);
}

#[test]
fn release_wipes_every_state_once() {
    let params = Arc::new(
        AggregatorParams::try_create(
            vec![WipeOnDrop::new(AggregateSum::new())],
            DataSchema { fields: vec![field("a", DataType::Int64), field("k", DataType::String)] },
        )
        .unwrap(),
    );
    let mut aggregator =
        BucketAggregator::<true, WipeOnDrop<AggregateSum>>::create(HashMethod::Serializer, params).unwrap();
    assert_eq!(aggregator.len(), 0);
    assert_eq!(aggregator.live_states(), 1);
    aggregator.merge_chunks(vec![sum_chunk(&["a", "b", "a"], &[1, 2, 3])]).unwrap();
    assert_eq!(aggregator.len(), 2);
    assert_eq!(aggregator.live_states(), 3);
    let places = aggregator.lookup_state(&vec![b"b".to_vec(), b"a".to_vec(), b"c".to_vec()]).unwrap();
    assert_eq!(places.iter().map(|p| p.addr()).collect::<Vec<_>>(), vec![16, 8, 24]);
    let chunk = aggregator.emit().unwrap();
    assert_eq!(chunk.num_rows(), 3);
    let released = aggregator.release();
    assert_eq!(released.destructor_calls, 4);
    assert_eq!(released.area.len(), 32);
    assert_eq!(released.area.load(StateAddr::new(0), 32), vec![0; 32]);
}

#[test]
fn release_leaves_states_without_destructor_alone() {
    let params = Arc::new(
        AggregatorParams::try_create(
            vec![AggregateSum::new()],
            DataSchema { fields: vec![field("a", DataType::Int64), field("k", DataType::String)] },
        )
        .unwrap(),
    );
    let mut aggregator =
        BucketAggregator::<true, AggregateSum>::create(HashMethod::Serializer, params).unwrap();
    aggregator.merge_chunks(vec![sum_chunk(&["a", "b", "a"], &[1, 2, 3])]).unwrap();
    let released = aggregator.release();
    assert_eq!(released.destructor_calls, 0);
    assert_eq!(released.area.load(StateAddr::new(8), 8), AggregateSum::serialize(4));
    assert_eq!(released.area.load(StateAddr::new(16), 8), AggregateSum::serialize(2));
}

#[test]
fn workers_hand_back_chunks_and_counts() {
    let params = Arc::new(
        AggregatorParams::try_create(
            vec![WipeOnDrop::new(AggregateSum::new())],
            DataSchema { fields: vec![field("a", DataType::Int64), field("k", DataType::String)] },
        )
        .unwrap(),
    );
    let output: WorkerOutput = merge_bucket::<true, WipeOnDrop<AggregateSum>>(
        HashMethod::Serializer,
        Arc::clone(&params),
        vec![sum_chunk(&["a", "b"], &[1, 2])],
    );
    assert_eq!(output.result.as_ref().map(|chunks| chunks.len()).ok(), Some(1));
    assert_eq!((output.allocated_states, output.dropped_states), (3, 3));
    let mut collector =
        ParallelFinalAggregator::<true, WipeOnDrop<AggregateSum>>::create(3, HashMethod::Serializer, params)
            .unwrap();
    assert_eq!(collector.max_threads(), 3);
    assert_eq!(collector.method(), HashMethod::Serializer);
    assert_eq!(collector.params().manual_drop_count(), 1);
    let failed = WorkerOutput {
        result: Err(ErrorCode::AllocationFailure),
        allocated_states: 2,
        dropped_states: 2,
    };
    let later = WorkerOutput {
        result: Err(ErrorCode::FunctionError(9)),
        allocated_states: 1,
        dropped_states: 1,
    };
    assert_eq!(collector.gather(vec![output, failed, later]).err(), Some(ErrorCode::AllocationFailure));
    assert_eq!(collector.dropped_states(), 6);
    assert_eq!(collector.allocated_states(), 6);
    assert_eq!(collector.dispatch().len(), 0);
}

#[test]
fn dispatch_hands_out_one_item_per_bucket_or_one_for_all() {
    let params = || {
        Arc::new(
            AggregatorParams::try_create(
                vec![AggregateSum::new()],
                DataSchema { fields: vec![field("a", DataType::Int64), field("k", DataType::String)] },
            )
            .unwrap(),
        )
    };
    let tagged = |keys: &[&str], bucket: isize| {
        let plain = sum_chunk(keys, &vec![1; keys.len()]);
        let entries = vec![
            ChunkEntry { value: Value::Column(Column::String(vec![AggregateSum::serialize(1); keys.len()])), data_type: DataType::String },
            ChunkEntry {
                value: Value::Column(Column::String(keys.iter().map(|k| k.as_bytes().to_vec()).collect())),
                data_type: DataType::String,
            },
        ];
        assert_eq!(plain.num_rows(), keys.len());
        Chunk::new_with_meta(entries, keys.len(), Some(ChunkMeta::Aggregate(AggregateInfo { bucket }))).unwrap()
    };
    let fill = |threads: usize, last: isize| {
        let mut collector =
            ParallelFinalAggregator::<true, AggregateSum>::create(threads, HashMethod::Serializer, params())
                .unwrap();
        collector.consume(tagged(&["a"], 4)).unwrap();
        collector.consume(tagged(&["b", "c"], 1)).unwrap();
        collector.consume(tagged(&["d", "e", "f"], 4)).unwrap();
        collector.consume(tagged(&["g"], last)).unwrap();
        collector
    };
    let rows = |work: Vec<Vec<Chunk>>| -> Vec<Vec<usize>> {
        work.iter().map(|chunks| chunks.iter().map(|c| c.num_rows()).collect()).collect()
    };
    assert_eq!(rows(fill(2, 1).dispatch()), vec![vec![1, 3], vec![2, 1]]);
    assert_eq!(rows(fill(2, 9).dispatch()), vec![vec![1, 3], vec![2], vec![1]]);
    assert_eq!(rows(fill(1, 1).dispatch()), vec![vec![1, 3, 2, 1]]);
    assert_eq!(rows(fill(0, 9).dispatch()), vec![vec![1, 3, 2, 1]]);
    assert_eq!(rows(fill(8, -1).dispatch()), vec![vec![1, 3, 2, 1]]);
    let mut collector = fill(2, 9);
    assert_eq!(collector.dispatch().len(), 3);
    assert_eq!(collector.dispatch().len(), 0);
    assert_eq!(collector.generate().unwrap().len(), 0);
}

#[test]
fn collector_shares_its_configuration() {
    let params = Arc::new(
        AggregatorParams::try_create(
            vec![AggregateSum::new()],
            DataSchema { fields: vec![field("a", DataType::Int64), field("k", DataType::String)] },
        )
        .unwrap(),
    );
    let collector =
        ParallelFinalAggregator::<true, AggregateSum>::create(2, HashMethod::Serializer, Arc::clone(&params))
            .unwrap();
    assert_eq!(Arc::strong_count(&params), 2);
    let shared = collector.params();
    assert!(Arc::ptr_eq(&shared, &params));
    assert_eq!(Arc::strong_count(&params), 3);
}
