use final_aggregator::bucket::BucketAggregator;
use final_aggregator::chunk::{Chunk, ChunkEntry, Column, DataType, Value};
use final_aggregator::method::HashMethod;
use final_aggregator::params::{AggregatorParams, DataField, DataSchema};
use final_aggregator::sum::AggregateSum;
use std::sync::Arc;

fn sum_schema() -> DataSchema {
    DataSchema {
        fields: vec![
            DataField { name: "sum".to_string(), data_type: DataType::Int64 },
            DataField { name: "key".to_string(), data_type: DataType::String },
        ],
    }
}

fn sum_chunk(keys: &[&str], partials: &[i64]) -> Chunk {
    let states: Vec<Vec<u8>> = partials.iter().map(|v| AggregateSum::serialize(*v)).collect();
    let keys: Vec<Vec<u8>> = keys.iter().map(|k| k.as_bytes().to_vec()).collect();
    let rows = keys.len();
    Chunk::new(
        vec![
            ChunkEntry { value: Value::Column(Column::String(states)), data_type: DataType::String },
            ChunkEntry { value: Value::Column(Column::String(keys)), data_type: DataType::String },
        ],
        rows,
    )
    .unwrap()
}

#[test]
fn bucket_sums_states_of_equal_keys() {
    let params = Arc::new(
        AggregatorParams::try_create(vec![AggregateSum::new()], sum_schema()).unwrap(),
    );
    let mut aggregator =
        BucketAggregator::<true, AggregateSum>::create(HashMethod::Serializer, params).unwrap();
    let output = aggregator
        .merge_chunks(vec![sum_chunk(&["a", "a", "b"], &[1, 2, 5]), sum_chunk(&["b", "c"], &[7, 8])])
        .unwrap();
    assert_eq!(output.len(), 1);
    let chunk = &output[0];
    assert_eq!(chunk.num_rows(), 3);
    assert_eq!(chunk.num_columns(), 2);
    match &chunk.column(0).value {
        Value::Column(Column::Int64(sums)) => assert_eq!(sums, &vec![3i64, 12, 8]),
        other => panic!("unexpected column {:?}", other),
    }
    match &chunk.column(1).value {
        Value::Column(Column::String(keys)) => {
            assert_eq!(keys, &vec![b"a".to_vec(), b"b".to_vec(), b"c".to_vec()])
        }
        other => panic!("unexpected column {:?}", other),
    }
    let released = aggregator.release();
    assert_eq!(released.destructor_calls, 0);
}
