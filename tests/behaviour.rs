use rw_exec::agg::{AggCall, AggKind};
use rw_exec::chunk::{DataChunk, Datum};
use rw_exec::error::SortAggError;
use rw_exec::grouper::{EqGroups, SortedGrouper};
use rw_exec::sort_agg::SortAggExecutor;
use rw_exec::types::{DataType, Field, InputRef, Schema};

fn chunk_of(rows: &[&[i64]], width: usize) -> DataChunk {
    let mut columns: Vec<Vec<Datum>> = Vec::new();
    for c in 0..width {
        columns.push(rows.iter().map(|r| Some(r[c])).collect());
    }
    DataChunk::new(columns, rows.len())
}

fn empty_chunk(width: usize) -> DataChunk {
    DataChunk::new((0..width).map(|_| Vec::new()).collect(), 0)
}

fn schema_of(types: &[DataType]) -> Schema {
    Schema {
        fields: types.iter().map(|t| Field::unnamed(*t)).collect(),
    }
}

fn int32_schema(width: usize) -> Schema {
    schema_of(&vec![DataType::Int32; width])
}

fn count_star() -> AggCall {
    AggCall {
        kind: AggKind::Count,
        arg: None,
    }
}

fn agg_on(kind: AggKind, index: usize) -> AggCall {
    AggCall {
        kind,
        arg: Some(InputRef::new(index, DataType::Int32)),
    }
}

fn key(index: usize) -> InputRef {
    InputRef::new(index, DataType::Int32)
}

fn executor(calls: Vec<AggCall>, keys: Vec<InputRef>, width: usize, limit: usize) -> SortAggExecutor {
    SortAggExecutor::new(calls, keys, int32_schema(width), "SortAggExecutor".to_string(), limit)
        .unwrap()
}

fn column(chunk: &DataChunk, idx: usize) -> Vec<Datum> {
    chunk.column_at(idx).clone()
}

/// All output rows, batch after batch.
fn out_rows(batches: &[DataChunk]) -> Vec<Vec<Datum>> {
    let mut rows = Vec::new();
    for b in batches {
        for r in 0..b.cardinality() {
            rows.push(b.columns.iter().map(|c| c[r]).collect());
        }
    }
    rows
}

#[test]
fn global_sum_of_one_to_ten_is_one_row() {
    let rows: Vec<Vec<i64>> = (1..=10).map(|v| vec![v]).collect();
    let refs: Vec<&[i64]> = rows.iter().map(|r| r.as_slice()).collect();
    let out = executor(vec![agg_on(AggKind::Sum, 0)], vec![], 1, 4)
        .execute(vec![chunk_of(&refs, 1)])
        .unwrap();
    assert_eq!(out.len(), 1);
    assert_eq!(out[0].cardinality(), 1);
    assert_eq!(column(&out[0], 0), vec![Some(55)]);
}

#[test]
fn global_count_without_chunks_is_zero() {
    let out = executor(vec![count_star()], vec![], 1, 4).execute(vec![]).unwrap();
    assert_eq!(out.len(), 1);
    assert_eq!(out[0].cardinality(), 1);
    assert_eq!(column(&out[0], 0), vec![Some(0)]);
}

#[test]
fn global_count_over_empty_chunks_is_zero() {
    let out = executor(vec![count_star()], vec![], 2, 4)
        .execute(vec![empty_chunk(2), empty_chunk(2)])
        .unwrap();
    assert_eq!(out.len(), 1);
    assert_eq!(column(&out[0], 0), vec![Some(0)]);
}

#[test]
fn global_sum_of_nothing_is_null() {
    let out = executor(vec![agg_on(AggKind::Sum, 0), count_star()], vec![], 1, 4)
        .execute(vec![empty_chunk(1)])
        .unwrap();
    assert_eq!(out_rows(&out), vec![vec![None, Some(0)]]);
}

#[test]
fn grouped_count_without_rows_gives_no_batch() {
    let ex = executor(vec![count_star()], vec![key(1)], 2, 4);
    assert_eq!(ex.execute(vec![]).unwrap().len(), 0);
    let ex = executor(vec![count_star()], vec![key(1)], 2, 4);
    assert_eq!(ex.execute(vec![empty_chunk(2), empty_chunk(2)]).unwrap().len(), 0);
}

#[test]
fn run_across_chunks_is_one_group() {
    let input = vec![
        chunk_of(&[&[1, 7], &[2, 7]], 2),
        chunk_of(&[&[3, 7]], 2),
        chunk_of(&[&[4, 7], &[5, 8]], 2),
    ];
    let out = executor(vec![agg_on(AggKind::Sum, 0), count_star()], vec![key(1)], 2, 10)
        .execute(input)
        .unwrap();
    assert_eq!(
        out_rows(&out),
        vec![vec![Some(7), Some(10), Some(4)], vec![Some(8), Some(5), Some(1)]]
    );
}

#[test]
fn key_change_at_chunk_start_closes_group() {
    let input = vec![chunk_of(&[&[1, 1]], 2), chunk_of(&[&[2, 2], &[3, 2]], 2)];
    let out = executor(vec![agg_on(AggKind::Sum, 0)], vec![key(1)], 2, 10).execute(input).unwrap();
    assert_eq!(out_rows(&out), vec![vec![Some(1), Some(1)], vec![Some(2), Some(5)]]);
}

#[test]
fn batches_are_full_but_the_last() {
    let rows: Vec<Vec<i64>> = (0..7).map(|v| vec![v, v]).collect();
    let refs: Vec<&[i64]> = rows.iter().map(|r| r.as_slice()).collect();
    let out = executor(vec![count_star()], vec![key(1)], 2, 3).execute(vec![chunk_of(&refs, 2)]).unwrap();
    let sizes: Vec<usize> = out.iter().map(|b| b.cardinality()).collect();
    assert_eq!(sizes, vec![3, 3, 1]);
}

#[test]
fn batch_size_one_gives_one_row_per_batch() {
    let input = vec![chunk_of(&[&[1, 1], &[2, 2], &[3, 2], &[4, 3]], 2)];
    let out = executor(vec![agg_on(AggKind::Sum, 0)], vec![key(1)], 2, 1).execute(input).unwrap();
    let sizes: Vec<usize> = out.iter().map(|b| b.cardinality()).collect();
    assert_eq!(sizes, vec![1, 1, 1]);
    assert_eq!(
        out_rows(&out),
        vec![vec![Some(1), Some(1)], vec![Some(2), Some(5)], vec![Some(3), Some(4)]]
    );
}

#[test]
fn exact_multiple_of_the_batch_size() {
    let input = vec![chunk_of(&[&[1, 1], &[2, 2], &[3, 3], &[4, 4]], 2)];
    let out = executor(vec![count_star()], vec![key(1)], 2, 2).execute(input).unwrap();
    let sizes: Vec<usize> = out.iter().map(|b| b.cardinality()).collect();
    assert_eq!(sizes, vec![2, 2]);
}

#[test]
fn aggregating_the_output_again_changes_nothing() {
    let input = vec![
        chunk_of(&[&[1, 1, 7], &[2, 1, 8], &[3, 3, 8], &[4, 3, 9]], 3),
        chunk_of(&[&[1, 3, 9], &[2, 4, 9], &[3, 4, 9], &[4, 5, 9]], 3),
    ];
    let first = executor(vec![agg_on(AggKind::Sum, 0)], vec![key(1), key(2)], 3, 2).execute(input).unwrap();
    let rows = out_rows(&first);
    for w in rows.windows(2) {
        assert_ne!(w[0][0..2], w[1][0..2]);
    }
    // Keys become columns 0 and 1, the sums column 2.
    let again = SortAggExecutor::new(
        vec![AggCall {
            kind: AggKind::Sum,
            arg: Some(InputRef::new(2, DataType::Int64)),
        }],
        vec![key(0), key(1)],
        schema_of(&[DataType::Int32, DataType::Int32, DataType::Int64]),
        "again".to_string(),
        2,
    )
    .unwrap()
    .execute(first.clone())
    .unwrap();
    assert_eq!(out_rows(&again), rows);
}

#[test]
fn groups_come_out_in_input_order() {
    let input = vec![chunk_of(&[&[1, 3], &[1, 3], &[1, 1], &[1, 2], &[1, 2]], 2)];
    let out = executor(vec![count_star()], vec![key(1)], 2, 10).execute(input).unwrap();
    assert_eq!(
        out_rows(&out),
        vec![vec![Some(3), Some(2)], vec![Some(1), Some(1)], vec![Some(2), Some(2)]]
    );
}

#[test]
fn sum_overflow_is_an_error() {
    let input = vec![chunk_of(&[&[i64::MAX, 1], &[1, 1]], 2)];
    let r = executor(vec![agg_on(AggKind::Sum, 0)], vec![key(1)], 2, 4).execute(input);
    assert_eq!(r.unwrap_err(), SortAggError::NumericOutOfRange);
}

#[test]
fn overflow_in_a_later_group_fails_the_whole_run() {
    let input = vec![
        chunk_of(&[&[1, 1], &[2, 2]], 2),
        chunk_of(&[&[i64::MIN, 3], &[-1, 3]], 2),
    ];
    let r = executor(vec![agg_on(AggKind::Sum, 0)], vec![key(1)], 2, 1).execute(input);
    assert_eq!(r.unwrap_err(), SortAggError::NumericOutOfRange);
}

#[test]
fn largest_sum_that_fits() {
    let input = vec![chunk_of(&[&[i64::MAX - 1, 1], &[1, 1]], 2)];
    let out = executor(vec![agg_on(AggKind::Sum, 0)], vec![key(1)], 2, 4).execute(input).unwrap();
    assert_eq!(out_rows(&out), vec![vec![Some(1), Some(i64::MAX)]]);
}

#[test]
fn hidden_rows_are_ignored() {
    let chunk = DataChunk::with_visibility(
        vec![
            vec![Some(1), Some(100), Some(2), Some(3)],
            vec![Some(5), Some(5), Some(6), Some(6)],
        ],
        vec![true, false, true, true],
    );
    assert_eq!(chunk.cardinality(), 3);
    let out = executor(vec![agg_on(AggKind::Sum, 0)], vec![key(1)], 2, 4).execute(vec![chunk]).unwrap();
    assert_eq!(out_rows(&out), vec![vec![Some(5), Some(1)], vec![Some(6), Some(5)]]);
}

#[test]
fn null_values_and_null_keys() {
    let chunk = DataChunk::new(
        vec![
            vec![Some(4), None, Some(-2), None, Some(9)],
            vec![None, None, Some(1), Some(1), Some(1)],
        ],
        5,
    );
    let calls = vec![
        agg_on(AggKind::Min, 0),
        agg_on(AggKind::Max, 0),
        agg_on(AggKind::Count, 0),
        count_star(),
        agg_on(AggKind::Sum, 0),
    ];
    let out = executor(calls, vec![key(1)], 2, 10).execute(vec![chunk]).unwrap();
    assert_eq!(
        out_rows(&out),
        vec![
            vec![None, Some(4), Some(4), Some(1), Some(2), Some(4)],
            vec![Some(1), Some(-2), Some(9), Some(2), Some(3), Some(7)],
        ]
    );
}

#[test]
fn min_max_of_only_nulls_is_null() {
    let chunk = DataChunk::new(vec![vec![None, None]], 2);
    let calls = vec![agg_on(AggKind::Min, 0), agg_on(AggKind::Max, 0), agg_on(AggKind::Count, 0)];
    let out = executor(calls, vec![], 1, 10).execute(vec![chunk]).unwrap();
    assert_eq!(out_rows(&out), vec![vec![None, None, Some(0)]]);
}

#[test]
fn schema_and_identity() {
    let ex = SortAggExecutor::new(
        vec![agg_on(AggKind::Min, 0), count_star()],
        vec![InputRef::new(1, DataType::Int16)],
        schema_of(&[DataType::Int32, DataType::Int16]),
        "SortAgg 42".to_string(),
        8,
    )
    .unwrap();
    let types: Vec<DataType> = ex.schema().fields.iter().map(|f| f.data_type).collect();
    assert_eq!(types, vec![DataType::Int16, DataType::Int32, DataType::Int64]);
    assert!(ex.schema().fields.iter().all(|f| f.name.is_empty()));
    assert_eq!(ex.identity(), "SortAgg 42");
}

#[test]
fn construction_errors() {
    let new = |calls: Vec<AggCall>, keys: Vec<InputRef>, limit: usize| {
        SortAggExecutor::new(
            calls,
            keys,
            schema_of(&[DataType::Int32, DataType::Varchar]),
            "x".to_string(),
            limit,
        )
        .err()
    };
    assert_eq!(
        new(vec![agg_on(AggKind::Sum, 5)], vec![], 1),
        Some(SortAggError::ColumnOutOfRange { index: 5 })
    );
    assert_eq!(
        new(vec![agg_on(AggKind::Max, 1)], vec![], 1),
        Some(SortAggError::UnsupportedType { index: 1 })
    );
    assert_eq!(
        new(vec![AggCall { kind: AggKind::Sum, arg: None }], vec![], 1),
        Some(SortAggError::InvalidArgumentCount)
    );
    assert_eq!(
        new(vec![count_star()], vec![key(3)], 1),
        Some(SortAggError::ColumnOutOfRange { index: 3 })
    );
    assert_eq!(
        new(vec![count_star()], vec![key(1)], 1),
        Some(SortAggError::UnsupportedType { index: 1 })
    );
    assert_eq!(new(vec![count_star()], vec![key(0)], 0), Some(SortAggError::ZeroOutputSizeLimit));
    // The first invalid aggregate is reported before any invalid key.
    assert_eq!(
        new(vec![count_star(), agg_on(AggKind::Sum, 9)], vec![key(7)], 0),
        Some(SortAggError::ColumnOutOfRange { index: 9 })
    );
    assert_eq!(new(vec![count_star()], vec![key(0)], 1), None);
}

#[test]
fn detect_groups_compares_with_the_carried_value() {
    let mut g = SortedGrouper::new();
    let col: Vec<Datum> = vec![Some(1), Some(1), Some(2), None, None];
    assert_eq!(g.detect_groups(&col).indices, vec![2, 3]);
    g.update(&col, 0, 5);
    assert_eq!(g.last, Some(None));
    let next: Vec<Datum> = vec![Some(4), Some(4)];
    assert_eq!(g.detect_groups(&next).indices, vec![0]);
    let same: Vec<Datum> = vec![None, Some(4)];
    assert_eq!(g.detect_groups(&same).indices, vec![1]);
}

#[test]
fn boundaries_of_several_columns_are_merged() {
    let groups = vec![
        EqGroups { indices: vec![1, 4, 6] },
        EqGroups { indices: vec![0, 4, 5, 9] },
        EqGroups { indices: vec![] },
    ];
    assert_eq!(EqGroups::intersect(&groups).indices, vec![0, 1, 4, 5, 6, 9]);
    assert_eq!(EqGroups::intersect(&vec![]).indices, Vec::<usize>::new());
}

#[test]
fn compact_keeps_visible_rows_in_order() {
    let chunk = DataChunk::with_visibility(
        vec![vec![Some(1), Some(2), Some(3)], vec![Some(4), Some(5), Some(6)]],
        vec![false, true, true],
    );
    let c = chunk.compact();
    assert_eq!(c.columns, vec![vec![Some(2), Some(3)], vec![Some(5), Some(6)]]);
    assert_eq!(c.visibility, vec![true, true]);
    assert_eq!(c.cardinality(), 2);
}

#[test]
fn stream_hands_out_batches_as_they_fill() {
    let mut s = executor(vec![agg_on(AggKind::Sum, 0)], vec![key(1)], 2, 2).into_stream();
    let first = s.push_chunk(&chunk_of(&[&[1, 1], &[2, 2], &[3, 2]], 2)).unwrap();
    assert!(first.is_empty());
    let second = s.push_chunk(&chunk_of(&[&[4, 3], &[5, 4]], 2)).unwrap();
    assert_eq!(second.len(), 1);
    assert_eq!(out_rows(&second), vec![vec![Some(1), Some(1)], vec![Some(2), Some(5)]]);
    let last = s.finish();
    assert_eq!(out_rows(&last), vec![vec![Some(3), Some(4)], vec![Some(4), Some(5)]]);
}

#[test]
fn stream_and_execute_agree() {
    let chunks = vec![
        chunk_of(&[&[1, 1, 7], &[2, 1, 8], &[3, 3, 8], &[4, 3, 9]], 3),
        chunk_of(&[&[1, 3, 9], &[2, 4, 9], &[3, 4, 9], &[4, 5, 9]], 3),
        chunk_of(&[&[1, 5, 9], &[2, 5, 9], &[3, 5, 9], &[4, 5, 9]], 3),
    ];
    let whole = executor(vec![agg_on(AggKind::Sum, 0)], vec![key(1), key(2)], 3, 4)
        .execute(chunks.clone())
        .unwrap();
    let mut s = executor(vec![agg_on(AggKind::Sum, 0)], vec![key(1), key(2)], 3, 4).into_stream();
    let mut streamed = Vec::new();
    for c in &chunks {
        streamed.extend(s.push_chunk(c).unwrap());
    }
    streamed.extend(s.finish());
    assert_eq!(out_rows(&streamed), out_rows(&whole));
    let sizes: Vec<usize> = streamed.iter().map(|b| b.cardinality()).collect();
    assert_eq!(sizes, vec![4, 2]);
}

#[test]
fn stream_keeps_batches_handed_out_before_an_overflow() {
    let mut s = executor(vec![agg_on(AggKind::Sum, 0)], vec![key(1)], 2, 1).into_stream();
    let ok = s.push_chunk(&chunk_of(&[&[1, 1], &[2, 2]], 2)).unwrap();
    assert_eq!(out_rows(&ok), vec![vec![Some(1), Some(1)]]);
    let err = s.push_chunk(&chunk_of(&[&[i64::MAX, 2], &[1, 3]], 2));
    assert_eq!(err.unwrap_err(), SortAggError::NumericOutOfRange);
}

#[test]
fn stream_of_nothing() {
    let s = executor(vec![count_star()], vec![key(0)], 1, 3).into_stream();
    assert!(s.finish().is_empty());
    let s = executor(vec![count_star()], vec![], 1, 3).into_stream();
    assert_eq!(out_rows(&s.finish()), vec![vec![Some(0)]]);
}

#[test]
fn chunking_does_not_change_output() {
    let rows: Vec<Vec<i64>> = vec![
        vec![1, 1], vec![2, 1], vec![3, 2], vec![4, 2], vec![5, 2], vec![6, 3], vec![7, 4], vec![8, 4],
    ];
    let refs: Vec<&[i64]> = rows.iter().map(|r| r.as_slice()).collect();
    let whole = executor(vec![agg_on(AggKind::Sum, 0), count_star()], vec![key(1)], 2, 3)
        .execute(vec![chunk_of(&refs, 2)])
        .unwrap();
    for cut in 0..=refs.len() {
        let split = vec![chunk_of(&refs[..cut], 2), empty_chunk(2), chunk_of(&refs[cut..], 2)];
        let out = executor(vec![agg_on(AggKind::Sum, 0), count_star()], vec![key(1)], 2, 3)
            .execute(split)
            .unwrap();
        assert_eq!(out_rows(&out), out_rows(&whole));
        assert_eq!(out.len(), whole.len());
    }
    assert_eq!(
        out_rows(&whole),
        vec![
            vec![Some(1), Some(3), Some(2)],
            vec![Some(2), Some(12), Some(3)],
            vec![Some(3), Some(6), Some(1)],
            vec![Some(4), Some(15), Some(2)],
        ]
    );
}

#[test]
fn counts_refold_as_sums() {
    let input = vec![
        chunk_of(&[&[5, 1], &[6, 1], &[7, 2]], 2),
        chunk_of(&[&[8, 2], &[9, 2], &[1, 3]], 2),
    ];
    let calls = vec![count_star(), agg_on(AggKind::Min, 0), agg_on(AggKind::Max, 0)];
    let first = executor(calls, vec![key(1)], 2, 2).execute(input).unwrap();
    let rows = out_rows(&first);
    assert_eq!(
        rows,
        vec![
            vec![Some(1), Some(2), Some(5), Some(6)],
            vec![Some(2), Some(3), Some(7), Some(9)],
            vec![Some(3), Some(1), Some(1), Some(1)],
        ]
    );
    let refold = vec![
        AggCall { kind: AggKind::Sum, arg: Some(InputRef::new(1, DataType::Int64)) },
        AggCall { kind: AggKind::Min, arg: Some(InputRef::new(2, DataType::Int32)) },
        AggCall { kind: AggKind::Max, arg: Some(InputRef::new(3, DataType::Int32)) },
    ];
    let again = SortAggExecutor::new(
        refold,
        vec![key(0)],
        schema_of(&[DataType::Int32, DataType::Int64, DataType::Int32, DataType::Int32]),
        "refold".to_string(),
        2,
    )
    .unwrap()
    .execute(first)
    .unwrap();
    assert_eq!(out_rows(&again), rows);
}

#[test]
fn sorted_input_gives_distinct_keys_across_batches() {
    let rows: Vec<Vec<i64>> = vec![
        vec![1, 1, 1], vec![1, 1, 2], vec![1, 1, 2], vec![1, 2, 0], vec![1, 2, 0], vec![1, 3, 5],
    ];
    let refs: Vec<&[i64]> = rows.iter().map(|r| r.as_slice()).collect();
    let input = vec![chunk_of(&refs[..2], 3), chunk_of(&refs[2..5], 3), chunk_of(&refs[5..], 3)];
    let out = executor(vec![count_star()], vec![key(1), key(2)], 3, 2).execute(input).unwrap();
    let keys: Vec<Vec<Datum>> = out_rows(&out).iter().map(|r| r[0..2].to_vec()).collect();
    assert_eq!(
        keys,
        vec![
            vec![Some(1), Some(1)],
            vec![Some(1), Some(2)],
            vec![Some(2), Some(0)],
            vec![Some(3), Some(5)],
        ]
    );
    for a in 0..keys.len() {
        for b in a + 1..keys.len() {
            assert_ne!(keys[a], keys[b]);
        }
    }
}
