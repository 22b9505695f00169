use rw_exec::agg::{AggCall, AggKind};
use rw_exec::chunk::{DataChunk, Datum};
use rw_exec::error::SortAggError;
use rw_exec::sort_agg::SortAggExecutor;
use rw_exec::types::{DataType, Field, InputRef, Schema};

fn chunk_of(rows: &[&[i64]], width: usize) -> DataChunk {
    let mut columns: Vec<Vec<Datum>> = Vec::new();
    for c in 0..width {
        columns.push(rows.iter().map(|r| Some(r[c])).collect());
    }
    DataChunk::new(columns, rows.len())
}

fn int32_schema(width: usize) -> Schema {
    Schema {
        fields: (0..width).map(|_| Field::unnamed(DataType::Int32)).collect(),
    }
}

fn count_star() -> AggCall {
    AggCall {
        kind: AggKind::Count,
        arg: None,
    }
}

fn agg_on(kind: AggKind, index: usize) -> AggCall {
    AggCall {
        kind,
        arg: Some(InputRef::new(index, DataType::Int32)),
    }
}

fn keys_1_2() -> Vec<InputRef> {
    (1..=2).map(|idx| InputRef::new(idx, DataType::Int32)).collect()
}

fn executor(calls: Vec<AggCall>, keys: Vec<InputRef>, width: usize, limit: usize) -> SortAggExecutor {
    SortAggExecutor::new(calls, keys, int32_schema(width), "SortAggExecutor".to_string(), limit)
        .unwrap()
}

fn column(chunk: &DataChunk, idx: usize) -> Vec<Datum> {
    chunk.column_at(idx).clone()
}

fn check_group_key_column(actual: &DataChunk, col_idx: usize, expect: Vec<Option<i64>>) {
    assert_eq!(column(actual, col_idx), expect);
}

#[test]
fn execute_count_star_int32() {
    let input = vec![
        chunk_of(&[&[1, 1, 7], &[2, 1, 8], &[3, 3, 8], &[4, 3, 9]], 3),
        chunk_of(&[&[1, 3, 9], &[2, 4, 9], &[3, 4, 9], &[4, 5, 9]], 3),
        chunk_of(&[&[1, 5, 9], &[2, 5, 9], &[3, 5, 9], &[4, 5, 9]], 3),
    ];
    let executor = executor(vec![count_star()], vec![], 3, 3);
    let fields = &executor.schema().fields;
    assert_eq!(fields.len(), 1);
    assert_eq!(fields[0].data_type, DataType::Int64);

    let out = executor.execute(input).unwrap();
    assert_eq!(out.len(), 1);
    let chunk = &out[0];
    assert_eq!(chunk.cardinality(), 1);
    assert_eq!(column(chunk, 0), vec![Some(12)]);
}

#[test]
fn execute_count_star_int32_grouped() {
    let input = vec![
        chunk_of(&[&[1, 1, 7], &[2, 1, 8], &[3, 3, 8], &[4, 3, 9], &[5, 4, 9]], 3),
        chunk_of(
            &[&[1, 4, 9], &[2, 4, 9], &[3, 4, 9], &[4, 5, 9], &[5, 6, 9], &[6, 7, 9], &[7, 7, 9], &[8, 8, 9]],
            3,
        ),
        chunk_of(&[&[1, 8, 9], &[2, 8, 9], &[3, 8, 9], &[4, 8, 9], &[5, 8, 9]], 3),
    ];
    let executor = executor(vec![count_star()], keys_1_2(), 3, 3);
    let fields = &executor.schema().fields;
    assert_eq!(fields[0].data_type, DataType::Int32);
    assert_eq!(fields[1].data_type, DataType::Int32);
    assert_eq!(fields[2].data_type, DataType::Int64);

    let out = executor.execute(input).unwrap();
    assert_eq!(out.len(), 3);

    let chunk = &out[0];
    assert_eq!(chunk.cardinality(), 3);
    assert_eq!(column(chunk, 2), vec![Some(1), Some(1), Some(1)]);
    check_group_key_column(chunk, 0, vec![Some(1), Some(1), Some(3)]);
    check_group_key_column(chunk, 1, vec![Some(7), Some(8), Some(8)]);

    let chunk = &out[1];
    assert_eq!(chunk.cardinality(), 3);
    assert_eq!(column(chunk, 2), vec![Some(1), Some(4), Some(1)]);
    check_group_key_column(chunk, 0, vec![Some(3), Some(4), Some(5)]);
    check_group_key_column(chunk, 1, vec![Some(9), Some(9), Some(9)]);

    let chunk = &out[2];
    assert_eq!(chunk.cardinality(), 3);
    assert_eq!(column(chunk, 2), vec![Some(1), Some(2), Some(6)]);
    check_group_key_column(chunk, 0, vec![Some(6), Some(7), Some(8)]);
    check_group_key_column(chunk, 1, vec![Some(9), Some(9), Some(9)]);
}

#[test]
fn execute_sum_int32() {
    let rows: Vec<Vec<i64>> = (1..=10).map(|v| vec![v]).collect();
    let refs: Vec<&[i64]> = rows.iter().map(|r| r.as_slice()).collect();
    let input = vec![chunk_of(&refs, 1)];
    let executor = executor(vec![agg_on(AggKind::Sum, 0)], vec![], 1, 4);

    let out = executor.execute(input).unwrap();
    assert_eq!(out.len(), 1);
    assert_eq!(column(&out[0], 0), vec![Some(55)]);
}

#[test]
fn execute_sum_int32_grouped() {
    let input = vec![
        chunk_of(&[&[1, 1, 7], &[2, 1, 8], &[3, 3, 8], &[4, 3, 9]], 3),
        chunk_of(&[&[1, 3, 9], &[2, 4, 9], &[3, 4, 9], &[4, 5, 9]], 3),
        chunk_of(&[&[1, 5, 9], &[2, 5, 9], &[3, 5, 9], &[4, 5, 9]], 3),
    ];
    let output_size_limit = 4;
    let executor = executor(vec![agg_on(AggKind::Sum, 0)], keys_1_2(), 3, output_size_limit);
    let fields = &executor.schema().fields;
    assert_eq!(fields[0].data_type, DataType::Int32);
    assert_eq!(fields[1].data_type, DataType::Int32);
    assert_eq!(fields[2].data_type, DataType::Int64);

    let out = executor.execute(input).unwrap();
    assert_eq!(out.len(), 2);

    let chunk = &out[0];
    assert_eq!(column(chunk, 2), vec![Some(1), Some(2), Some(3), Some(5)]);
    check_group_key_column(chunk, 0, vec![Some(1), Some(1), Some(3), Some(3)]);
    check_group_key_column(chunk, 1, vec![Some(7), Some(8), Some(8), Some(9)]);

    let chunk = &out[1];
    assert_eq!(column(chunk, 2), vec![Some(5), Some(14)]);
    check_group_key_column(chunk, 0, vec![Some(4), Some(5)]);
    check_group_key_column(chunk, 1, vec![Some(9), Some(9)]);
}

#[test]
fn execute_sum_int32_grouped_exceed_limit() {
    let input = vec![
        chunk_of(
            &[
                &[1, 1, 7],
                &[2, 1, 8],
                &[3, 3, 8],
                &[4, 3, 8],
                &[5, 4, 9],
                &[6, 4, 9],
                &[7, 5, 9],
                &[8, 5, 9],
                &[9, 6, 10],
                &[10, 6, 10],
            ],
            3,
        ),
        chunk_of(&[&[1, 6, 10], &[2, 7, 12]], 3),
    ];
    let executor = executor(vec![agg_on(AggKind::Sum, 0)], keys_1_2(), 3, 3);
    let fields = &executor.schema().fields;
    assert_eq!(fields[0].data_type, DataType::Int32);
    assert_eq!(fields[1].data_type, DataType::Int32);
    assert_eq!(fields[2].data_type, DataType::Int64);

    let out = executor.execute(input).unwrap();
    assert_eq!(out.len(), 3);

    let chunk = &out[0];
    assert_eq!(column(chunk, 2), vec![Some(1), Some(2), Some(7)]);
    check_group_key_column(chunk, 0, vec![Some(1), Some(1), Some(3)]);
    check_group_key_column(chunk, 1, vec![Some(7), Some(8), Some(8)]);

    let chunk = &out[1];
    assert_eq!(column(chunk, 2), vec![Some(11), Some(15), Some(20)]);
    check_group_key_column(chunk, 0, vec![Some(4), Some(5), Some(6)]);
    check_group_key_column(chunk, 1, vec![Some(9), Some(9), Some(10)]);

    let chunk = &out[2];
    assert_eq!(column(chunk, 2), vec![Some(2)]);
    check_group_key_column(chunk, 0, vec![Some(7)]);
    check_group_key_column(chunk, 1, vec![Some(12)]);
}
